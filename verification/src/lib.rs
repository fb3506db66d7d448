//! A first-fit, sbrk-style heap allocator, verified over an address model.
//!
//! The allocator manages a monotonically growing heap region. Freed regions
//! are kept on an intrusive-style free list (modelled here as a sequence of
//! address/size records) and are reused by later allocations, with excess
//! space split off into new free blocks.

pub mod free_list;
pub mod laws;
pub mod sbrk;
pub mod spin_lock;
pub mod utils;

use vstd::prelude::*;

verus! {

/// Bytes a free-list header occupies when written into a freed region.
/// Every allocation is padded by this much so that, once freed, the region
/// can always host a header in place.
pub const HEADER_SIZE: usize = 16;

/// Alignment every free-list header needs; allocations never use a smaller
/// alignment, so freed regions are always suitably placed for a header.
pub const HEADER_ALIGN: usize = 8;

} // verus!
