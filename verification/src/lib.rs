//! Runtime support for scripts running inside a constrained, deterministic
//! virtual machine: a buddy memory allocator over a fixed arena, and the
//! compact offset-table binary codec used to exchange structured records
//! with the host.

use vstd::prelude::*;

pub mod balloc;
pub mod blake2b;
pub mod conversion;
pub mod molecule;

verus! {

/// Smallest block size managed by the buddy allocator, in bytes.
pub const MIN_BLOCK: usize = 64;

/// Largest order: a block of this order spans the whole arena.
pub const MAX_ORDER: usize = 14;

/// Total capacity of the arena: `MIN_BLOCK << MAX_ORDER` bytes.
pub const MAX_TOTAL: usize = 1048576;

} // verus!
