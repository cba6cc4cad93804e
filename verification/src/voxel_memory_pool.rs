//! The pool that buffers with the pool allocator share.

use vstd::prelude::*;

verus! {

/// A handle to shared voxel memory. Typed channel storage is allocated
/// directly, so the pool keeps no blocks of its own.
#[derive(Debug)]
pub struct VoxelMemoryPool {
    used: usize,
}

impl VoxelMemoryPool {
    pub closed spec fn blocks(&self) -> nat {
        self.used as nat
    }

    pub fn new() -> (pool: VoxelMemoryPool)
        ensures
            pool.blocks() == 0,
    {
        VoxelMemoryPool { used: 0 }
    }

    /// Number of blocks in use.
    pub fn used_blocks(&self) -> (n: usize)
        ensures
            n == self.blocks(),
    {
        self.used
    }
}

} // verus!
