//! A paged allocator of key/value-cache blocks for sequence generation.
//!
//! Physical blocks live in two pools, a fast tier (GPU) and a slow tier
//! (CPU). Each sequence owns an ordered table of blocks; sequences of one
//! group share blocks by reference count and part on write. The engine
//! answers admission queries, allocates, grows, frees and swaps tables
//! between tiers, and keeps every block's count equal to the number of
//! table slots that refer to it.
use vstd::prelude::*;

pub mod block;
pub mod engine;
pub mod logical_block;
pub mod sequence;
pub mod tables;

verus! {

} // verus!
