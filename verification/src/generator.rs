//! What supplies voxels: generators and streams.

use crate::buffer_model::BufferModel;
use crate::channel::{Allocator, MAX_CHANNELS};
use crate::grid;
use crate::grid::Cell;
use crate::math::Vector3i;
use crate::voxel_buffer::VoxelBuffer;
use std::sync::Arc;
use vstd::prelude::*;

verus! {

/// Computes voxels for regions that hold no edited data. Implementations may be
/// called from several threads and are free to give different results for the
/// same query.
pub trait VoxelGenerator: Send + Sync {
    /// `after` is a possible result of generating the block at `origin` into a
    /// buffer that held `before`. Everything is possible with a generator that
    /// does not say more.
    open spec fn may_generate(
        &self,
        before: BufferModel,
        origin: Vector3i,
        lod: u32,
        after: BufferModel,
    ) -> bool {
        true
    }

    /// `value` is a possible raw value of channel `channel_index` at `pos`.
    open spec fn may_generate_single(
        &self,
        pos: Vector3i,
        channel_index: usize,
        value: u64,
    ) -> bool {
        true
    }

    /// Fills `buffer` with the voxels of the block at `origin_in_voxels` at the
    /// given level of detail. The buffer keeps its extent and its depths.
    fn generate_block(&self, buffer: &mut VoxelBuffer, origin_in_voxels: Vector3i, lod: u32)
        requires
            old(buffer).wf(),
        ensures
            final(buffer).wf(),
            same_shape(old(buffer)@, final(buffer)@),
            self.may_generate(old(buffer)@, origin_in_voxels, lod, final(buffer)@),
    ;

    /// The raw value of one voxel.
    fn generate_single(&self, pos: Vector3i, channel_index: usize) -> (value: u64)
        requires
            channel_index < MAX_CHANNELS,
        ensures
            self.may_generate_single(pos, channel_index, value),
    ;

    /// The channels that the generator writes, one bit each.
    fn used_channels_mask(&self) -> u32;
}

/// Both buffers have the same extent and the same channel depths.
pub open spec fn same_shape(a: BufferModel, b: BufferModel) -> bool {
    &&& a.size == b.size
    &&& forall|c: int|
        0 <= c < MAX_CHANNELS ==> (#[trigger] a.channels[c]).depth == b.channels[c].depth
}

/// A generator shared between its users.
pub type SharedVoxelGenerator = Arc<dyn VoxelGenerator>;

/// Stores and retrieves blocks outside memory.
pub trait VoxelStream: Send + Sync {
    /// The channels that the stream stores, one bit each.
    fn used_channels_mask(&self) -> u32;
}

/// A stream shared between its users.
pub type SharedVoxelStream = Arc<dyn VoxelStream>;

/// Another handle to the same generator.
pub fn share_generator(g: &Option<SharedVoxelGenerator>) -> (r: Option<SharedVoxelGenerator>)
    ensures
        r == *g,
{
    match g {
        Some(g) => {
            let copy = Some(g.clone());
            copy
        },
        None => None,
    }
}

/// Another handle to the same stream.
pub fn share_stream(s: &Option<SharedVoxelStream>) -> (r: Option<SharedVoxelStream>)
    ensures
        r == *s,
{
    match s {
        Some(s) => {
            let copy = Some(s.clone());
            copy
        },
        None => None,
    }
}

/// The value that a generator of whole blocks gives one voxel: that of a block
/// of one voxel at its position.
pub fn generate_single_from_block(
    generator: &dyn VoxelGenerator,
    pos: Vector3i,
    channel_index: usize,
) -> (value: u64)
    requires
        channel_index < MAX_CHANNELS,
    ensures
        exists|after: BufferModel| #[trigger]
            generator.may_generate(
                BufferModel::fresh(Allocator::Default).created(Cell::splat(1)),
                pos,
                0,
                after,
            ) && value == after.value(channel_index as int, Cell::zero()),
{
    assert(grid::volume(Cell::splat(1)) == 1) by {
        assert(1int * 1 * 1 == 1);
    }
    let mut buffer = VoxelBuffer::with_size(Vector3i::splat(1));
    generator.generate_block(&mut buffer, pos, 0);
    buffer.get_voxel(0, 0, 0, channel_index)
}

} // verus!
