//! A single-file version history: snapshots of one working file kept as a
//! tree of byte-level deltas, with the operations that move through it.
use vstd::prelude::*;

pub mod codec;
pub mod diff;
pub mod error;
pub mod layout;
pub mod schedule;
pub mod store;

verus! {

} // verus!
