//! Shared voxel data: edits, views, marks and updates.

use std::sync::{Arc, Mutex};
use voxel_storage::boxes::Box3i;
use voxel_storage::channel::{ChannelId, MAX_CHANNELS};
use voxel_storage::generator::{
    generate_single_from_block, SharedVoxelGenerator, VoxelGenerator,
};
use voxel_storage::math::Vector3i;
use voxel_storage::mutation_error::SharedVoxelDataMutationError;
use voxel_storage::revision::VoxelDataKeyRevision;
use voxel_storage::shared_data::SharedVoxelData;
use voxel_storage::voxel_buffer::VoxelBuffer;
use voxel_storage::voxel_data::{BlockLocation, VoxelData};
use voxel_storage::voxel_data_block::VoxelDataBlock;
use voxel_storage::voxel_data_map::VoxelDataMap;

/// Remembers what it was asked for.
#[derive(Default)]
struct RecordingGenerator {
    calls: Mutex<Vec<(Vector3i, u32)>>,
}

impl VoxelGenerator for RecordingGenerator {
    fn generate_block(&self, buffer: &mut VoxelBuffer, origin_in_voxels: Vector3i, lod: u32) {
        self.calls.lock().unwrap().push((origin_in_voxels, lod));
        let value = 10 + lod as u64 + origin_in_voxels.x as u64;
        buffer.fill(value, ChannelId::Type.index());
    }

    fn generate_single(&self, pos: Vector3i, channel_index: usize) -> u64 {
        generate_single_from_block(self, pos, channel_index)
    }

    fn used_channels_mask(&self) -> u32 {
        1 << ChannelId::Type.index()
    }
}

fn with_map_mut<R>(
    shared: &mut SharedVoxelData,
    lod_index: usize,
    f: impl FnOnce(&mut VoxelDataMap) -> R,
) -> R {
    f(shared.try_lod_map_write(lod_index).unwrap())
}

#[test]
fn shared_settings_revision_advances_only_for_a_real_generator_change() {
    let mut shared = SharedVoxelData::new(VoxelData::new());
    assert_eq!(shared.settings_snapshot().revision, 0);
    let generator: SharedVoxelGenerator = Arc::new(RecordingGenerator::default());

    shared.set_generator(Some(generator.clone())).unwrap();
    assert_eq!(shared.settings_snapshot().revision, 1);
    shared.set_generator(Some(generator)).unwrap();
    assert_eq!(shared.settings_snapshot().revision, 1);
    shared.set_generator(None).unwrap();
    assert_eq!(shared.settings_snapshot().revision, 2);
}

#[test]
fn shared_single_key_insert_advances_only_that_key_revision() {
    let mut shared = SharedVoxelData::new(VoxelData::new());
    let first = Vector3i::new(-3, 2, 9);
    let second = Vector3i::new(7, -4, 5);
    assert_eq!(
        shared.key_revision(first, 0),
        Some(VoxelDataKeyRevision::Tombstone(0))
    );

    assert!(shared
        .try_set_block(first, VoxelDataBlock::empty(0))
        .unwrap());
    assert_eq!(
        shared.key_revision(first, 0),
        Some(VoxelDataKeyRevision::Present(1))
    );
    assert!(!shared
        .try_set_block(first, VoxelDataBlock::empty(0))
        .unwrap());
    assert_eq!(
        shared.key_revision(first, 0),
        Some(VoxelDataKeyRevision::Present(1))
    );

    assert!(shared
        .try_set_block(second, VoxelDataBlock::empty(0))
        .unwrap());
    assert_eq!(
        shared.key_revision(first, 0),
        Some(VoxelDataKeyRevision::Present(1))
    );
    assert_eq!(
        shared.key_revision(second, 0),
        Some(VoxelDataKeyRevision::Present(1))
    );
}

#[test]
fn shared_settings_revision_overflow_is_typed_and_non_mutating() {
    let mut shared = SharedVoxelData::new(VoxelData::new());
    shared.set_settings_revision(u64::MAX);
    let generator: SharedVoxelGenerator = Arc::new(RecordingGenerator::default());

    assert_eq!(
        shared.set_generator(Some(generator)),
        Err(SharedVoxelDataMutationError::SettingsRevisionOverflow)
    );
    let snapshot = shared.settings_snapshot();
    assert_eq!(snapshot.revision, u64::MAX);
    assert!(snapshot.generator.is_none());
}

#[test]
fn shared_key_revision_overflow_rejects_insert_without_a_block() {
    let mut shared = SharedVoxelData::new(VoxelData::new());
    let position = Vector3i::new(-8, 3, 11);
    with_map_mut(&mut shared, 0, |map| {
        map.commit_key_revision(position, u64::MAX);
    });

    assert_eq!(
        shared.try_set_block(position, VoxelDataBlock::empty(0)),
        Err(SharedVoxelDataMutationError::KeyRevisionOverflow {
            position,
            lod_index: 0,
        })
    );
    assert!(!shared.with_lod_map(0, |map| map.has_block(position)));
    assert_eq!(
        shared.key_revision(position, 0),
        Some(VoxelDataKeyRevision::Tombstone(u64::MAX))
    );
}

#[test]
fn shared_view_and_unview_advance_only_touched_key_revisions() {
    let mut data = VoxelData::new();
    data.set_bounds(Box3i::new(Vector3i::zero(), Vector3i::splat(128)));
    let mut shared = SharedVoxelData::new(data);
    let first = Vector3i::new(0, 0, 0);
    let second = Vector3i::new(1, 0, 0);
    let untouched = Vector3i::new(4, 0, 0);
    assert!(shared
        .try_set_block(first, VoxelDataBlock::empty(0))
        .unwrap());
    assert!(shared
        .try_set_block(second, VoxelDataBlock::empty(0))
        .unwrap());
    assert!(shared
        .try_set_block(untouched, VoxelDataBlock::empty(0))
        .unwrap());

    shared
        .view_area(
            Box3i::new(first, Vector3i::new(2, 1, 1)),
            0,
            None,
            None,
            None,
        )
        .unwrap();
    assert_eq!(
        shared.key_revision(first, 0),
        Some(VoxelDataKeyRevision::Present(2))
    );
    assert_eq!(
        shared.key_revision(second, 0),
        Some(VoxelDataKeyRevision::Present(2))
    );
    assert_eq!(
        shared.key_revision(untouched, 0),
        Some(VoxelDataKeyRevision::Present(1))
    );

    shared
        .unview_area(
            Box3i::new(first, Vector3i::new(2, 1, 1)),
            0,
            None,
            None,
            None,
        )
        .unwrap();
    assert_eq!(
        shared.key_revision(first, 0),
        Some(VoxelDataKeyRevision::Tombstone(3))
    );
    assert_eq!(
        shared.key_revision(second, 0),
        Some(VoxelDataKeyRevision::Tombstone(3))
    );
    assert_eq!(
        shared.key_revision(untouched, 0),
        Some(VoxelDataKeyRevision::Present(1))
    );
}

#[test]
fn shared_view_revision_overflow_rolls_back_the_entire_batch() {
    let mut data = VoxelData::new();
    data.set_bounds(Box3i::new(Vector3i::zero(), Vector3i::splat(32)));
    let mut shared = SharedVoxelData::new(data);
    let first = Vector3i::new(0, 0, 0);
    let second = Vector3i::new(1, 0, 0);
    assert!(shared
        .try_set_block(first, VoxelDataBlock::empty(0))
        .unwrap());
    assert!(shared
        .try_set_block(second, VoxelDataBlock::empty(0))
        .unwrap());
    with_map_mut(&mut shared, 0, |map| {
        map.commit_key_revision(second, u64::MAX);
    });

    let mut found_positions = Vec::new();
    assert_eq!(
        shared.view_area(
            Box3i::new(first, Vector3i::new(2, 1, 1)),
            0,
            None,
            Some(&mut found_positions),
            None,
        ),
        Err(SharedVoxelDataMutationError::KeyRevisionOverflow {
            position: second,
            lod_index: 0,
        })
    );
    assert!(found_positions.is_empty());
    shared.with_lod_map(0, |map| {
        assert_eq!(map.get_block(first).unwrap().viewers.get(), 0);
        assert_eq!(map.get_block(second).unwrap().viewers.get(), 0);
    });
    assert_eq!(
        shared.key_revision(first, 0),
        Some(VoxelDataKeyRevision::Present(1))
    );
    assert_eq!(
        shared.key_revision(second, 0),
        Some(VoxelDataKeyRevision::Present(u64::MAX))
    );
}

#[test]
fn shared_viewer_count_overflow_is_typed_and_non_mutating() {
    let mut data = VoxelData::new();
    data.set_bounds(Box3i::new(Vector3i::zero(), Vector3i::splat(16)));
    let mut shared = SharedVoxelData::new(data);
    let position = Vector3i::zero();
    assert!(shared
        .try_set_block(position, VoxelDataBlock::empty(0))
        .unwrap());
    with_map_mut(&mut shared, 0, |map| {
        map.get_block_mut(position)
            .unwrap()
            .viewers
            .set_exact(u32::MAX);
    });

    assert_eq!(
        shared.view_area(
            Box3i::new(position, Vector3i::splat(1)),
            0,
            None,
            None,
            None,
        ),
        Err(SharedVoxelDataMutationError::ViewerCountOverflow {
            position,
            lod_index: 0,
        })
    );
    assert_eq!(
        shared.with_lod_map(0, |map| map.get_block(position).unwrap().viewers.get()),
        u32::MAX
    );
    assert_eq!(
        shared.key_revision(position, 0),
        Some(VoxelDataKeyRevision::Present(1))
    );
}

#[test]
fn shared_unview_revision_overflow_preserves_dirty_data_and_outputs() {
    let mut data = VoxelData::new();
    data.set_bounds(Box3i::new(Vector3i::zero(), Vector3i::splat(16)));
    let mut shared = SharedVoxelData::new(data);
    let position = Vector3i::zero();
    assert!(shared
        .try_set_block(position, VoxelDataBlock::empty(0))
        .unwrap());
    with_map_mut(&mut shared, 0, |map| {
        let block = map.get_block_mut(position).unwrap();
        block.viewers.set_exact(1);
        block.set_modified(true);
        map.commit_key_revision(position, u64::MAX);
    });
    let mut removed = Vec::new();
    let mut saves = Vec::new();

    assert_eq!(
        shared.unview_area(
            Box3i::new(position, Vector3i::splat(1)),
            0,
            Some(&mut removed),
            None,
            Some(&mut saves),
        ),
        Err(SharedVoxelDataMutationError::KeyRevisionOverflow {
            position,
            lod_index: 0,
        })
    );
    assert!(removed.is_empty());
    assert!(saves.is_empty());
    shared.with_lod_map(0, |map| {
        let block = map.get_block(position).unwrap();
        assert_eq!(block.viewers.get(), 1);
        assert!(block.is_modified());
    });
    assert_eq!(
        shared.key_revision(position, 0),
        Some(VoxelDataKeyRevision::Present(u64::MAX))
    );
}

#[test]
fn shared_unview_viewer_underflow_is_typed_and_non_mutating() {
    let mut data = VoxelData::new();
    data.set_bounds(Box3i::new(Vector3i::zero(), Vector3i::splat(16)));
    let mut shared = SharedVoxelData::new(data);
    let position = Vector3i::zero();
    assert!(shared
        .try_set_block(position, VoxelDataBlock::empty(0))
        .unwrap());
    let mut removed = Vec::new();

    assert_eq!(
        shared.unview_area(
            Box3i::new(position, Vector3i::splat(1)),
            0,
            Some(&mut removed),
            None,
            None,
        ),
        Err(SharedVoxelDataMutationError::ViewerCountUnderflow {
            position,
            lod_index: 0,
        })
    );
    assert!(removed.is_empty());
    assert!(shared.with_lod_map(0, |map| map.has_block(position)));
    assert_eq!(
        shared.key_revision(position, 0),
        Some(VoxelDataKeyRevision::Present(1))
    );
}

#[test]
fn shared_view_area_uses_lod_scaled_bounds() {
    let mut data = VoxelData::new();
    data.set_lod_count(3).unwrap();
    data.set_bounds(Box3i::new(
        Vector3i::new(1024, 0, 0),
        Vector3i::new(256, 256, 256),
    ));
    let mut shared = SharedVoxelData::new(data);

    let lod_index = 2;
    let edge_position = Vector3i::new(19, 0, 0);
    let old_base_size_bounds = shared.bounds().downscaled(shared.block_size() as i32);
    assert!(!old_base_size_bounds.contains_point(edge_position));
    assert!(shared
        .try_set_block(edge_position, VoxelDataBlock::empty(lod_index))
        .unwrap());

    shared
        .view_area(
            Box3i::new(edge_position, Vector3i::splat(1)),
            lod_index as usize,
            None,
            None,
            None,
        )
        .unwrap();
    assert_eq!(
        shared.with_lod_map(lod_index as usize, |map| map
            .get_block(edge_position)
            .unwrap()
            .viewers
            .get()),
        1
    );

    let mut removed = Vec::new();
    shared
        .unview_area(
            Box3i::new(edge_position, Vector3i::splat(1)),
            lod_index as usize,
            Some(&mut removed),
            None,
            None,
        )
        .unwrap();
    assert_eq!(removed, vec![edge_position]);
    assert!(!shared.with_lod_map(lod_index as usize, |map| map.has_block(edge_position)));
}

#[test]
fn view_and_unview_reject_unrepresentable_lod_index_without_wrapping() {
    let bounds = Box3i::new(Vector3i::zero(), Vector3i::splat(64));
    let requested = Box3i::new(Vector3i::zero(), Vector3i::new(2, 1, 1));
    let expected: Vec<_> = (0..requested.cell_count()).map(|i| requested.cell(i)).collect();
    let invalid_lod_index = usize::from(u8::MAX) + 1;

    let mut owned = VoxelData::new();
    owned.set_bounds(bounds);
    let mut missing = Vec::new();
    owned.view_area(requested, invalid_lod_index, Some(&mut missing), None, None);
    assert_eq!(missing, expected);
    missing.clear();
    owned.unview_area(requested, invalid_lod_index, None, Some(&mut missing), None);
    assert_eq!(missing, expected);

    let mut data = VoxelData::new();
    data.set_bounds(bounds);
    let mut shared = SharedVoxelData::new(data);
    missing.clear();
    shared
        .view_area(requested, invalid_lod_index, Some(&mut missing), None, None)
        .unwrap();
    assert_eq!(missing, expected);
    missing.clear();
    shared
        .unview_area(requested, invalid_lod_index, None, Some(&mut missing), None)
        .unwrap();
    assert_eq!(missing, expected);
}

#[test]
fn view_and_unview_handle_unrepresentable_request_without_panicking() {
    let bounds = Box3i::new(Vector3i::zero(), Vector3i::splat(64));
    let requested = Box3i::new(Vector3i::splat(i32::MAX), Vector3i::splat(1));

    let mut owned = VoxelData::new();
    owned.set_bounds(bounds);
    let mut missing = Vec::new();
    owned.view_area(requested, 0, Some(&mut missing), None, None);
    assert!(missing.is_empty());
    owned.unview_area(requested, 0, None, Some(&mut missing), None);
    assert!(missing.is_empty());

    let mut data = VoxelData::new();
    data.set_bounds(bounds);
    let mut shared = SharedVoxelData::new(data);
    shared
        .view_area(requested, 0, Some(&mut missing), None, None)
        .unwrap();
    assert!(missing.is_empty());
    shared
        .unview_area(requested, 0, None, Some(&mut missing), None)
        .unwrap();
    assert!(missing.is_empty());
}

#[test]
fn shared_voxel_data_region_locks_follow_voxel_data_contract() {
    let mut shared = SharedVoxelData::new(VoxelData::new());
    let area = Box3i::new(Vector3i::zero(), Vector3i::splat(16));
    let overlap = Box3i::new(Vector3i::splat(8), Vector3i::splat(16));
    let disjoint = Box3i::new(Vector3i::splat(64), Vector3i::splat(16));

    let read = shared
        .try_read_region(0, area)
        .expect("nothing is locked yet");
    let overlap_read = shared
        .try_read_region(0, overlap)
        .expect("overlapping mesh/read regions may coexist");
    assert!(
        shared.try_write_region(0, overlap).is_none(),
        "overlapping edit/write region must wait for readers"
    );
    let disjoint_write = shared
        .try_write_region(0, disjoint)
        .expect("disjoint edit/write region can proceed");
    assert_eq!(shared.locked_region_count(0), 3);

    shared.unlock_region(0, disjoint_write);
    shared.unlock_region(0, overlap_read);
    shared.unlock_region(0, read);

    let write = shared
        .try_write_region(0, overlap)
        .expect("write should acquire after readers drop");
    assert_eq!(shared.locked_region_count(0), 1);
    shared.unlock_region(0, write);
    assert_eq!(shared.locked_region_count(0), 0);
}

#[test]
fn shared_edit_voxel_materializes_procedural_block_and_marks_it_dirty() {
    let mut data = VoxelData::new();
    data.set_bounds(Box3i::new(Vector3i::zero(), Vector3i::splat(16)));
    data.set_streaming_enabled(false);
    data.set_full_load_completed(true);
    data.set_generator(Some(Arc::new(RecordingGenerator::default())));
    let mut shared = SharedVoxelData::new(data);
    let channel = ChannelId::Type.index();

    assert!(shared.try_edit_voxel_checked(99, Vector3i::new(1, 1, 1), channel).unwrap());

    let block = shared.block_snapshot(Vector3i::zero(), 0).unwrap();
    assert_eq!(block.voxels().get_voxel(1, 1, 1, channel), 99);
    assert_eq!(block.voxels().get_voxel(2, 1, 1, channel), 10);
    assert!(block.is_modified());
    assert!(block.is_edited());
    assert_eq!(
        shared.key_revision(Vector3i::zero(), 0),
        Some(VoxelDataKeyRevision::Present(1))
    );
}

#[test]
fn shared_update_lods_rearms_intermediate_blocks_for_repeated_edit_cascades() {
    let mut data = VoxelData::new();
    data.set_lod_count(3).unwrap();
    data.set_bounds(Box3i::new(Vector3i::zero(), Vector3i::splat(64)));
    data.set_streaming_enabled(false);
    data.set_full_load_completed(true);
    let mut shared = SharedVoxelData::new(data);
    let channel = ChannelId::Type.index();
    let first_voxel = Vector3i::zero();
    let sibling_voxel = Vector3i::new(shared.block_size() as i32, 0, 0);
    let edited_area = Box3i::new(Vector3i::zero(), Vector3i::new(32, 1, 1));

    assert!(shared
        .try_set_voxel_checked(11, first_voxel, channel)
        .unwrap());
    assert!(shared
        .try_set_voxel_checked(12, sibling_voxel, channel)
        .unwrap());
    let modified = shared
        .mark_area_modified_checked(edited_area, true)
        .unwrap();
    assert_eq!(modified, vec![Vector3i::zero(), Vector3i::new(1, 0, 0)]);

    let first_updated = shared
        .update_lods_from_lod0_blocks_checked(&modified)
        .unwrap();
    assert_eq!(
        first_updated
            .iter()
            .filter(|location| location.lod_index == 2)
            .count(),
        1,
        "sibling LOD0 blocks sharing one LOD1 parent must enqueue that parent once"
    );
    let lod2 = shared.block_snapshot(Vector3i::zero(), 2).unwrap();
    assert_eq!(lod2.voxels().get_voxel(0, 0, 0, channel), 11);
    assert_eq!(lod2.voxels().get_voxel(4, 0, 0, channel), 12);

    assert!(shared
        .try_set_voxel_checked(21, first_voxel, channel)
        .unwrap());
    assert!(shared
        .try_set_voxel_checked(22, sibling_voxel, channel)
        .unwrap());
    let modified = shared
        .mark_area_modified_checked(edited_area, true)
        .unwrap();
    assert_eq!(modified, vec![Vector3i::zero(), Vector3i::new(1, 0, 0)]);

    let second_updated = shared
        .update_lods_from_lod0_blocks_checked(&modified)
        .unwrap();
    assert_eq!(
        second_updated
            .iter()
            .filter(|location| location.lod_index == 2)
            .count(),
        1,
        "a later edit must re-enqueue the already-used LOD1 parent exactly once"
    );
    let lod2 = shared.block_snapshot(Vector3i::zero(), 2).unwrap();
    assert_eq!(lod2.voxels().get_voxel(0, 0, 0, channel), 21);
    assert_eq!(lod2.voxels().get_voxel(4, 0, 0, channel), 22);
    assert!(
        !shared
            .block_snapshot(Vector3i::zero(), 1)
            .unwrap()
            .needs_lodding(),
        "processed intermediate blocks must be ready for the next cascade"
    );
}

#[test]
fn shared_checked_set_voxel_advances_only_its_key_revision() {
    let mut data = VoxelData::new();
    data.set_bounds(Box3i::new(Vector3i::zero(), Vector3i::splat(32)));
    data.set_streaming_enabled(false);
    data.set_full_load_completed(true);
    let mut shared = SharedVoxelData::new(data);
    let channel = ChannelId::Type.index();
    let first = Vector3i::new(1, 1, 1);
    let second_block = Vector3i::new(1, 0, 0);

    assert!(shared.try_set_voxel_checked(7, first, channel).unwrap());
    assert_eq!(
        shared.key_revision(Vector3i::zero(), 0),
        Some(VoxelDataKeyRevision::Present(1))
    );
    assert_eq!(
        shared.key_revision(second_block, 0),
        Some(VoxelDataKeyRevision::Tombstone(0))
    );

    assert!(shared.try_set_voxel_checked(8, first, channel).unwrap());
    assert_eq!(
        shared.key_revision(Vector3i::zero(), 0),
        Some(VoxelDataKeyRevision::Present(2))
    );
    assert_eq!(
        shared.try_set_voxel_checked(9, first, MAX_CHANNELS),
        Err(SharedVoxelDataMutationError::InvalidChannel {
            channel_index: MAX_CHANNELS,
        })
    );
    assert_eq!(
        shared.key_revision(Vector3i::zero(), 0),
        Some(VoxelDataKeyRevision::Present(2))
    );
}

#[test]
fn shared_checked_set_voxel_revision_overflow_preserves_an_empty_block() {
    let mut data = VoxelData::new();
    data.set_bounds(Box3i::new(Vector3i::zero(), Vector3i::splat(16)));
    data.set_streaming_enabled(true);
    let mut shared = SharedVoxelData::new(data);
    let position = Vector3i::zero();
    assert!(shared
        .try_set_block(position, VoxelDataBlock::empty(0))
        .unwrap());
    with_map_mut(&mut shared, 0, |map| {
        map.commit_key_revision(position, u64::MAX);
    });

    assert_eq!(
        shared.try_set_voxel_checked(7, Vector3i::new(1, 1, 1), ChannelId::Type.index(),),
        Err(SharedVoxelDataMutationError::KeyRevisionOverflow {
            position,
            lod_index: 0,
        })
    );
    assert!(!shared.block_snapshot(position, 0).unwrap().has_voxels());
}

#[test]
fn shared_mark_area_revision_overflow_rolls_back_the_complete_batch() {
    let mut data = VoxelData::new();
    data.set_bounds(Box3i::new(Vector3i::zero(), Vector3i::new(32, 16, 16)));
    data.set_streaming_enabled(false);
    data.set_full_load_completed(true);
    let mut shared = SharedVoxelData::new(data);
    let channel = ChannelId::Type.index();
    let first = Vector3i::zero();
    let second = Vector3i::new(1, 0, 0);

    assert!(shared
        .try_set_voxel_checked(1, Vector3i::new(1, 1, 1), channel)
        .unwrap());
    assert!(shared
        .try_set_voxel_checked(2, Vector3i::new(17, 1, 1), channel)
        .unwrap());
    with_map_mut(&mut shared, 0, |map| {
        map.commit_key_revision(second, u64::MAX);
    });

    assert_eq!(
        shared.mark_area_modified_checked(
            Box3i::new(Vector3i::zero(), Vector3i::new(32, 1, 1)),
            true,
        ),
        Err(SharedVoxelDataMutationError::KeyRevisionOverflow {
            position: second,
            lod_index: 0,
        })
    );
    for position in [first, second] {
        let block = shared.block_snapshot(position, 0).unwrap();
        assert!(!block.is_modified());
        assert!(!block.is_edited());
        assert!(!block.needs_lodding());
    }
    assert_eq!(
        shared.key_revision(first, 0),
        Some(VoxelDataKeyRevision::Present(1))
    );
}

#[test]
fn shared_mark_area_rejects_overflowing_bounds_without_mutation() {
    let mut data = VoxelData::new();
    data.set_bounds(Box3i::new(Vector3i::zero(), Vector3i::splat(16)));
    data.set_streaming_enabled(false);
    data.set_full_load_completed(true);
    let mut shared = SharedVoxelData::new(data);
    let position = Vector3i::new(1, 1, 1);
    assert!(shared
        .try_set_voxel_checked(7, position, ChannelId::Type.index())
        .unwrap());

    assert_eq!(
        shared.mark_area_modified_checked(
            Box3i::new(Vector3i::splat(i32::MAX - 1), Vector3i::splat(4)),
            true,
        ),
        Err(SharedVoxelDataMutationError::SpatialBoundsOverflow { lod_index: 0 })
    );
    assert!(
        shared
            .mark_area_modified_checked(
                Box3i::new(Vector3i::zero(), Vector3i::new(-1, 1, 1)),
                true,
            )
            .unwrap()
            .is_empty()
    );
    let block = shared.block_snapshot(Vector3i::zero(), 0).unwrap();
    assert!(!block.is_modified());
    assert!(!block.is_edited());
    assert!(!block.needs_lodding());
    assert_eq!(
        shared.key_revision(Vector3i::zero(), 0),
        Some(VoxelDataKeyRevision::Present(1))
    );
}

#[test]
fn shared_mark_area_and_dirty_consumption_advance_each_changed_key_once() {
    let mut data = VoxelData::new();
    data.set_bounds(Box3i::new(Vector3i::zero(), Vector3i::new(32, 16, 16)));
    data.set_streaming_enabled(false);
    data.set_full_load_completed(true);
    let mut shared = SharedVoxelData::new(data);
    let channel = ChannelId::Type.index();
    let first = Vector3i::zero();
    let second = Vector3i::new(1, 0, 0);

    assert!(shared
        .try_set_voxel_checked(31, Vector3i::new(1, 1, 1), channel)
        .unwrap());
    assert!(shared
        .try_set_voxel_checked(32, Vector3i::new(17, 1, 1), channel)
        .unwrap());
    assert_eq!(
        shared
            .mark_area_modified_checked(
                Box3i::new(Vector3i::zero(), Vector3i::new(32, 1, 1)),
                true,
            )
            .unwrap(),
        vec![first, second]
    );
    for position in [first, second] {
        assert_eq!(
            shared.key_revision(position, 0),
            Some(VoxelDataKeyRevision::Present(2))
        );
    }

    assert!(
        shared
            .mark_area_modified_checked(
                Box3i::new(Vector3i::zero(), Vector3i::new(32, 1, 1)),
                true,
            )
            .unwrap()
            .is_empty()
    );
    for position in [first, second] {
        assert_eq!(
            shared.key_revision(position, 0),
            Some(VoxelDataKeyRevision::Present(2))
        );
    }

    let saves = shared.consume_all_modifications_checked().unwrap();
    assert_eq!(
        saves
            .iter()
            .map(|save| (save.lod_index, save.position))
            .collect::<Vec<_>>(),
        vec![(0, first), (0, second)]
    );
    assert_eq!(
        saves[0]
            .voxels
            .as_ref()
            .unwrap()
            .get_voxel(1, 1, 1, channel),
        31
    );
    assert_eq!(
        saves[1]
            .voxels
            .as_ref()
            .unwrap()
            .get_voxel(1, 1, 1, channel),
        32
    );
    for position in [first, second] {
        assert!(!shared.block_snapshot(position, 0).unwrap().is_modified());
        assert_eq!(
            shared.key_revision(position, 0),
            Some(VoxelDataKeyRevision::Present(3))
        );
    }
}

#[test]
fn shared_dirty_consumption_revision_overflow_keeps_every_block_dirty() {
    let mut data = VoxelData::new();
    data.set_bounds(Box3i::new(Vector3i::zero(), Vector3i::new(32, 16, 16)));
    data.set_streaming_enabled(false);
    data.set_full_load_completed(true);
    let mut shared = SharedVoxelData::new(data);
    let channel = ChannelId::Type.index();
    let first = Vector3i::zero();
    let second = Vector3i::new(1, 0, 0);

    assert!(shared
        .try_set_voxel_checked(1, Vector3i::new(1, 1, 1), channel)
        .unwrap());
    assert!(shared
        .try_set_voxel_checked(2, Vector3i::new(17, 1, 1), channel)
        .unwrap());
    shared
        .mark_area_modified_checked(
            Box3i::new(Vector3i::zero(), Vector3i::new(32, 1, 1)),
            false,
        )
        .unwrap();
    with_map_mut(&mut shared, 0, |map| {
        map.commit_key_revision(second, u64::MAX);
    });

    assert!(matches!(
        shared.consume_all_modifications_checked(),
        Err(SharedVoxelDataMutationError::KeyRevisionOverflow {
            position,
            lod_index: 0,
        }) if position == second
    ));
    assert!(shared.block_snapshot(first, 0).unwrap().is_modified());
    assert!(shared.block_snapshot(second, 0).unwrap().is_modified());
    assert_eq!(
        shared.key_revision(first, 0),
        Some(VoxelDataKeyRevision::Present(2))
    );
}

#[test]
fn shared_lod_update_revision_overflow_rolls_back_every_lod() {
    let mut data = VoxelData::new();
    data.set_lod_count(2).unwrap();
    data.set_bounds(Box3i::new(Vector3i::zero(), Vector3i::splat(32)));
    data.set_streaming_enabled(false);
    data.set_full_load_completed(true);
    let mut shared = SharedVoxelData::new(data);
    let source = Vector3i::zero();
    let destination = Vector3i::zero();

    assert!(shared
        .try_set_voxel_checked(3, Vector3i::new(1, 1, 1), ChannelId::Type.index())
        .unwrap());
    let modified = shared
        .mark_area_modified_checked(Box3i::new(Vector3i::zero(), Vector3i::splat(1)), true)
        .unwrap();
    assert!(shared
        .try_set_block(destination, VoxelDataBlock::empty(1))
        .unwrap());
    with_map_mut(&mut shared, 1, |map| {
        map.commit_key_revision(destination, u64::MAX);
    });

    assert_eq!(
        shared.update_lods_from_lod0_blocks_checked(&modified),
        Err(SharedVoxelDataMutationError::KeyRevisionOverflow {
            position: destination,
            lod_index: 1,
        })
    );
    assert!(shared.block_snapshot(source, 0).unwrap().needs_lodding());
    assert!(!shared.block_snapshot(destination, 1).unwrap().has_voxels());
    assert_eq!(
        shared.key_revision(source, 0),
        Some(VoxelDataKeyRevision::Present(2))
    );
}

#[test]
fn shared_lod_update_retains_source_until_streamed_parent_is_resident() {
    let mut data = VoxelData::new();
    data.set_lod_count(2).unwrap();
    data.set_bounds(Box3i::new(Vector3i::zero(), Vector3i::splat(32)));
    data.set_streaming_enabled(true);
    data.set_full_load_completed(true);
    let mut shared = SharedVoxelData::new(data);
    let source = Vector3i::zero();
    let mut voxels = VoxelBuffer::with_size(Vector3i::splat(16));
    voxels.set_voxel(29, 2, 2, 2, ChannelId::Type.index());
    assert!(shared
        .try_set_block(source, VoxelDataBlock::with_voxels(voxels, 0))
        .unwrap());
    let modified = shared
        .mark_area_modified_checked(
            Box3i::new(Vector3i::new(2, 2, 2), Vector3i::splat(1)),
            true,
        )
        .unwrap();

    assert_eq!(
        shared.update_lods_from_lod0_blocks_checked(&modified),
        Err(SharedVoxelDataMutationError::LodDestinationUnavailable {
            position: source,
            lod_index: 1,
        })
    );
    assert!(shared.block_snapshot(source, 0).unwrap().needs_lodding());
    assert!(shared.block_snapshot(source, 1).is_none());
    assert_eq!(
        shared.key_revision(source, 0),
        Some(VoxelDataKeyRevision::Present(2))
    );

    assert!(shared
        .try_set_block(
            source,
            VoxelDataBlock::with_voxels(VoxelBuffer::with_size(Vector3i::splat(16)), 1),
        )
        .unwrap());
    assert!(shared
        .update_lods_from_lod0_blocks_checked(&modified)
        .is_ok());
    assert!(!shared.block_snapshot(source, 0).unwrap().needs_lodding());
    assert_eq!(
        shared
            .block_snapshot(source, 1)
            .unwrap()
            .voxels()
            .get_voxel(1, 1, 1, ChannelId::Type.index()),
        29
    );
}

#[test]
fn shared_lod_update_mutates_each_unique_key_once_across_all_lods() {
    let mut data = VoxelData::new();
    data.set_lod_count(3).unwrap();
    data.set_bounds(Box3i::new(Vector3i::zero(), Vector3i::splat(64)));
    data.set_streaming_enabled(false);
    data.set_full_load_completed(true);
    let mut shared = SharedVoxelData::new(data);
    let channel = ChannelId::Type.index();
    let first = Vector3i::zero();
    let sibling = Vector3i::new(1, 0, 0);

    assert!(shared
        .try_set_voxel_checked(41, Vector3i::new(1, 1, 1), channel)
        .unwrap());
    assert!(shared
        .try_set_voxel_checked(42, Vector3i::new(17, 1, 1), channel)
        .unwrap());
    let modified = shared
        .mark_area_modified_checked(Box3i::new(Vector3i::zero(), Vector3i::new(32, 1, 1)), true)
        .unwrap();
    let updated = shared
        .update_lods_from_lod0_blocks_checked(&modified)
        .unwrap();

    assert_eq!(
        updated,
        vec![
            BlockLocation {
                position: first,
                lod_index: 0,
            },
            BlockLocation {
                position: sibling,
                lod_index: 0,
            },
            BlockLocation {
                position: first,
                lod_index: 1,
            },
            BlockLocation {
                position: first,
                lod_index: 2,
            },
        ]
    );
    for position in [first, sibling] {
        assert_eq!(
            shared.key_revision(position, 0),
            Some(VoxelDataKeyRevision::Present(3))
        );
    }
    assert_eq!(
        shared.key_revision(first, 1),
        Some(VoxelDataKeyRevision::Present(1))
    );
    assert_eq!(
        shared.key_revision(first, 2),
        Some(VoxelDataKeyRevision::Present(1))
    );
}

#[test]
fn shared_lod_update_propagates_through_an_already_pending_intermediate_block() {
    let mut data = VoxelData::new();
    data.set_lod_count(3).unwrap();
    data.set_bounds(Box3i::new(Vector3i::zero(), Vector3i::splat(64)));
    data.set_streaming_enabled(false);
    data.set_full_load_completed(true);
    let mut shared = SharedVoxelData::new(data);
    let source = Vector3i::zero();
    assert!(shared
        .try_set_voxel_checked(51, Vector3i::new(1, 1, 1), ChannelId::Type.index())
        .unwrap());
    let modified = shared
        .mark_area_modified_checked(Box3i::new(Vector3i::zero(), Vector3i::splat(1)), true)
        .unwrap();
    let mut intermediate =
        VoxelDataBlock::with_voxels(VoxelBuffer::with_size(Vector3i::splat(16)), 1);
    intermediate.set_needs_lodding(true);
    assert!(shared.try_set_block(source, intermediate).unwrap());

    let updated = shared
        .update_lods_from_lod0_blocks_checked(&modified)
        .unwrap();

    assert!(updated.contains(&BlockLocation {
        position: source,
        lod_index: 2,
    }));
    assert!(shared.block_snapshot(source, 2).unwrap().has_voxels());
    assert!(!shared.block_snapshot(source, 1).unwrap().needs_lodding());
}

#[test]
fn shared_edit_voxel_does_not_materialize_unavailable_blocks() {
    let channel = ChannelId::Type.index();

    for &(streaming_enabled, full_load_completed) in &[(true, true), (false, false)] {
        for empty_block in [false, true] {
            let mut data = VoxelData::new();
            data.set_bounds(Box3i::new(Vector3i::zero(), Vector3i::splat(16)));
            data.set_streaming_enabled(streaming_enabled);
            data.set_full_load_completed(full_load_completed);
            let generator = Arc::new(RecordingGenerator::default());
            let handle: SharedVoxelGenerator = generator.clone();
            data.set_generator(Some(handle));
            let mut shared = SharedVoxelData::new(data);

            if empty_block {
                assert!(shared
                    .try_set_block(Vector3i::zero(), VoxelDataBlock::empty(0))
                    .unwrap());
            }

            assert!(
                !shared
                    .try_edit_voxel_checked(99, Vector3i::new(1, 1, 1), channel)
                    .unwrap(),
                "streaming={streaming_enabled}, full_load_completed={full_load_completed}"
            );
            assert!(generator.calls.lock().unwrap().is_empty());

            match shared.block_snapshot(Vector3i::zero(), 0) {
                Some(block) if empty_block => assert!(!block.has_voxels()),
                None if !empty_block => {}
                _ => panic!(
                    "unavailable block was materialized: streaming={streaming_enabled}, full_load_completed={full_load_completed}, empty_block={empty_block}"
                ),
            }
        }
    }
}

#[test]
fn shared_edit_voxel_is_dirty_before_immediate_unview() {
    let mut data = VoxelData::new();
    data.set_bounds(Box3i::new(Vector3i::zero(), Vector3i::splat(16)));
    data.set_streaming_enabled(false);
    data.set_full_load_completed(true);
    let mut shared = SharedVoxelData::new(data);
    let channel = ChannelId::Type.index();

    assert!(shared.try_edit_voxel_checked(77, Vector3i::new(1, 1, 1), channel).unwrap());
    let mut saves = Vec::new();
    let area = Box3i::new(Vector3i::zero(), Vector3i::splat(1));
    shared.view_area(area, 0, None, None, None).unwrap();
    shared
        .unview_area(area, 0, None, None, Some(&mut saves))
        .unwrap();

    assert_eq!(saves.len(), 1);
    assert_eq!(saves[0].position, Vector3i::zero());
    assert_eq!(
        saves[0]
            .voxels
            .as_ref()
            .unwrap()
            .get_voxel(1, 1, 1, channel),
        77
    );
}
