//! A slotted-page record store: fixed-size pages with stable slot ids,
//! per-container heap files made of page-aligned blocks, and a storage
//! manager that maps container ids to heap files and offers value-level
//! insert, get, update, delete and full scans.

use vstd::prelude::*;

pub mod codec;
pub mod heapfile;
pub mod ids;
pub mod page;
pub mod storage_manager;

verus! {

/// Size in bytes of one page, the unit the heap file stores and transfers.
pub const PAGE_SIZE: usize = 4096;

} // verus!
