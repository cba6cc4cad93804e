//! Blocks of voxels and their viewers.

use voxel_storage::channel::ChannelId;
use voxel_storage::math::Vector3i;
use voxel_storage::voxel_buffer::VoxelBuffer;
use voxel_storage::voxel_data_block::{Viewers, VoxelDataBlock};

#[test]
fn empty_block_tracks_lod_and_has_no_voxels() {
    let block = VoxelDataBlock::empty(3);

    assert_eq!(block.lod_index(), 3);
    assert!(!block.has_voxels());
    assert!(!block.is_modified());
    assert!(!block.is_edited());
    assert!(!block.needs_lodding());
    assert_eq!(block.viewers.get(), 0);
}

#[test]
fn block_with_voxels_exposes_flags_and_buffer() {
    let mut voxels = VoxelBuffer::with_size(Vector3i::new(2, 2, 2));
    voxels.set_voxel(7, 1, 0, 0, ChannelId::Type.index());
    let mut block = VoxelDataBlock::with_voxels(voxels, 1);

    assert!(block.has_voxels());
    assert_eq!(
        block.voxels().get_voxel(1, 0, 0, ChannelId::Type.index()),
        7
    );

    block.set_modified(true);
    block.set_edited(true);
    block.set_needs_lodding(true);

    assert!(block.is_modified());
    assert!(block.is_edited());
    assert!(block.needs_lodding());

    block.clear_voxels();
    assert!(!block.has_voxels());
    assert!(!block.is_edited());
    assert!(block.is_modified());
    assert!(block.needs_lodding());
}

#[test]
fn viewers_refcount_round_trips_and_saturates_below_zero() {
    let mut viewers = Viewers::new();
    assert_eq!(viewers.get(), 0);
    viewers.add();
    viewers.add();
    assert_eq!(viewers.get(), 2);
    assert_eq!(viewers.remove(), 1);
    assert_eq!(viewers.remove(), 0);
    // Unpaired remove saturates at zero rather than underflowing.
    assert_eq!(viewers.remove(), 0);
}

#[test]
fn viewers_exact_setter_preserves_the_requested_total() {
    let mut viewers = Viewers::new();
    viewers.set_exact(u32::MAX);
    assert_eq!(viewers.get(), u32::MAX);
    viewers.set_exact(7);
    assert_eq!(viewers.get(), 7);
}
