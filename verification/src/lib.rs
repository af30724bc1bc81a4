//! An in-process personal-finance store: work logs and balance snapshots
//! with allocator-assigned ids, kept sorted by date, together with the
//! text codec for the on-disk copy of the dataset.

use vstd::prelude::*;

pub mod codec;
pub mod laws;
pub mod order;
pub mod store;
pub mod types;

verus! {

} // verus!
