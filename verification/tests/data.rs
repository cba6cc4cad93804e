//! Voxel data with levels of detail.

use std::sync::{Arc, Mutex};
use voxel_storage::boxes::Box3i;
use voxel_storage::channel::ChannelId;
use voxel_storage::depth::ChannelDepth;
use voxel_storage::generator::{
    generate_single_from_block, SharedVoxelGenerator, VoxelGenerator,
};
use voxel_storage::math::Vector3i;
use voxel_storage::voxel_buffer::VoxelBuffer;
use voxel_storage::voxel_data::{BlockLocation, VoxelData, VoxelDataLodResizeError, MAX_LOD};
use voxel_storage::voxel_data_block::VoxelDataBlock;
use voxel_storage::voxel_data_map::VoxelDataMap;
use voxel_storage::voxel_format::VoxelFormat;

/// Remembers what it was asked for.
#[derive(Default)]
struct RecordingGenerator {
    calls: Mutex<Vec<(Vector3i, u32)>>,
}

impl VoxelGenerator for RecordingGenerator {
    fn generate_block(&self, buffer: &mut VoxelBuffer, origin_in_voxels: Vector3i, lod: u32) {
        self.calls.lock().unwrap().push((origin_in_voxels, lod));
        let value = 10 + lod as u64 + origin_in_voxels.x as u64;
        buffer.fill(value, ChannelId::Type.index());
    }

    fn generate_single(&self, pos: Vector3i, channel_index: usize) -> u64 {
        generate_single_from_block(self, pos, channel_index)
    }

    fn used_channels_mask(&self) -> u32 {
        1 << ChannelId::Type.index()
    }
}

fn make_tagged_lod_block(value: u64, lod_index: u8) -> VoxelDataBlock {
    let mut voxels = VoxelBuffer::with_size(Vector3i::splat(VoxelDataMap::BLOCK_SIZE as i32));
    voxels.set_voxel(value, 0, 0, 0, ChannelId::Type.index());
    VoxelDataBlock::with_voxels(voxels, lod_index)
}

/// Where the values of a block are in memory.
fn block_buffer_identity(block: &VoxelDataBlock) -> usize {
    let bytes = block.voxels().channel_bytes(ChannelId::Type.index());
    assert!(!bytes.is_empty(), "the values must be stored");
    bytes.as_ptr() as usize
}

#[test]
fn lod_count_resizes_maps_and_reset_preserves_settings() {
    let mut data = VoxelData::new();
    assert_eq!(data.lod_count(), 1);

    data.set_lod_count(3).unwrap();
    assert_eq!(data.lod_count(), 3);
    assert_eq!(data.block_count(), 0);

    let bounds = Box3i::new(Vector3i::new(-16, -16, -16), Vector3i::new(32, 32, 32));
    data.set_bounds(bounds);
    data.set_streaming_enabled(false);
    data.set_full_load_completed(true);
    let channel = ChannelId::Type.index();
    assert!(data.try_set_voxel(11, Vector3i::zero(), channel));
    assert_eq!(data.block_count(), 1);

    data.reset_maps();

    assert_eq!(data.lod_count(), 3);
    assert_eq!(data.bounds(), bounds);
    assert!(data.is_full_load_completed());
    assert_eq!(data.block_count(), 0);
}

#[test]
fn preserving_lod_resize_extends_without_replacing_existing_blocks() {
    let mut data = VoxelData::new();
    let negative = Vector3i::new(-5, 2, 9);
    assert!(data.try_set_block(negative, make_tagged_lod_block(41, 0)));
    let original_buffer = block_buffer_identity(data.get_block(negative, 0).unwrap());

    data.try_resize_lods_preserving(3).unwrap();

    assert_eq!(data.lod_count(), 3);
    let preserved = data.get_block(negative, 0).unwrap();
    assert_eq!(block_buffer_identity(preserved), original_buffer);
    assert_eq!(
        preserved
            .voxels()
            .get_voxel(0, 0, 0, ChannelId::Type.index()),
        41
    );
    assert!(data.try_set_block(Vector3i::new(7, -4, 5), make_tagged_lod_block(73, 2),));
}

#[test]
fn preserving_lod_resize_equal_and_invalid_counts_are_non_mutating() {
    let mut data = VoxelData::new();
    let position = Vector3i::new(-1, -2, -3);
    assert!(data.try_set_block(position, make_tagged_lod_block(17, 0)));
    let original_buffer = block_buffer_identity(data.get_block(position, 0).unwrap());

    data.try_resize_lods_preserving(1).unwrap();
    assert_eq!(
        block_buffer_identity(data.get_block(position, 0).unwrap()),
        original_buffer
    );

    for requested in [0, MAX_LOD, usize::MAX] {
        assert_eq!(
            data.try_resize_lods_preserving(requested),
            Err(VoxelDataLodResizeError::InvalidLodCount { requested })
        );
        assert_eq!(data.lod_count(), 1);
        assert_eq!(
            block_buffer_identity(data.get_block(position, 0).unwrap()),
            original_buffer
        );
    }
}

#[test]
fn preserving_lod_resize_rejects_nonempty_truncation_without_data_loss() {
    let mut data = VoxelData::new();
    data.try_resize_lods_preserving(3).unwrap();
    let location = Vector3i::new(-5, 2, 9);
    assert!(data.try_set_block(location, make_tagged_lod_block(41, 2)));
    let original_buffer = block_buffer_identity(data.get_block(location, 2).unwrap());

    assert_eq!(
        data.try_resize_lods_preserving(1),
        Err(VoxelDataLodResizeError::NonEmptyTruncatedLod { lod_index: 2 })
    );
    assert_eq!(data.lod_count(), 3);
    let preserved = data.get_block(location, 2).unwrap();
    assert_eq!(block_buffer_identity(preserved), original_buffer);
    assert_eq!(
        preserved
            .voxels()
            .get_voxel(0, 0, 0, ChannelId::Type.index()),
        41
    );
}

#[test]
fn preserving_lod_resize_truncates_only_an_empty_suffix() {
    let mut data = VoxelData::new();
    data.try_resize_lods_preserving(4).unwrap();
    let location = Vector3i::new(3, -7, 11);
    assert!(data.try_set_block(location, make_tagged_lod_block(29, 1)));

    data.try_resize_lods_preserving(2).unwrap();

    assert_eq!(data.lod_count(), 2);
    assert_eq!(
        data.get_block(location, 1).unwrap().voxels().get_voxel(
            0,
            0,
            0,
            ChannelId::Type.index()
        ),
        29
    );
}

#[test]
fn set_format_resets_maps_and_configures_new_blocks() {
    let mut data = VoxelData::new();
    data.set_bounds(Box3i::new(Vector3i::zero(), Vector3i::splat(32)));
    data.set_streaming_enabled(false);
    data.set_full_load_completed(true);
    assert!(data.try_set_voxel(1, Vector3i::zero(), ChannelId::Type.index()));
    assert_eq!(data.block_count(), 1);

    let mut format = VoxelFormat::new();
    format.depths[ChannelId::Sdf.index()] = ChannelDepth::Bit32;
    data.set_format(format);

    assert_eq!(data.block_count(), 0);
    assert_eq!(data.format(), format);
    assert!(data.try_set_voxel(
        u64::from((-3.25_f32).to_bits()),
        Vector3i::zero(),
        ChannelId::Sdf.index(),
    ));
    let block = data.get_block(Vector3i::zero(), 0).unwrap();
    assert_eq!(
        block.voxels().channel_depth(ChannelId::Sdf.index()),
        ChannelDepth::Bit32
    );
}

#[test]
fn try_set_voxel_requires_bounds_and_known_loaded_data() {
    let mut data = VoxelData::new();
    let channel = ChannelId::Type.index();
    let inside = Vector3i::new(1, 1, 1);
    data.set_bounds(Box3i::new(Vector3i::zero(), Vector3i::new(4, 4, 4)));

    assert!(data.is_streaming_enabled());
    assert!(!data.try_set_voxel(5, inside, channel));
    assert_eq!(data.get_voxel(inside, channel, 99), 99);

    data.set_full_load_completed(true);
    assert!(!data.try_set_voxel(5, inside, channel));

    data.set_streaming_enabled(false);

    assert!(data.try_set_voxel(5, inside, channel));
    assert_eq!(data.get_voxel(inside, channel, 99), 5);
    assert!(!data.try_set_voxel(6, Vector3i::new(8, 1, 1), channel));
    assert_eq!(data.get_voxel(Vector3i::new(8, 1, 1), channel, 99), 99);
}

#[test]
fn try_set_block_inserts_once_and_tracks_lod() {
    let mut data = VoxelData::new();
    data.set_lod_count(2).unwrap();
    let mut voxels = VoxelBuffer::with_size(Vector3i::splat(data.block_size() as i32));
    voxels.set_voxel(7, 0, 0, 0, ChannelId::Type.index());
    let block = VoxelDataBlock::with_voxels(voxels, 1);
    let block_pos = Vector3i::new(3, 0, -2);

    assert!(data.try_set_block(block_pos, block));
    assert!(data.has_block(block_pos, 1));
    assert_eq!(data.block_count(), 1);

    let duplicate = VoxelDataBlock::empty(1);
    assert!(!data.try_set_block(block_pos, duplicate));
    assert_eq!(data.block_count(), 1);
}

#[test]
fn streaming_try_set_voxel_requires_existing_block() {
    let mut data = VoxelData::new();
    data.set_bounds(Box3i::new(Vector3i::zero(), Vector3i::new(32, 16, 16)));
    let channel = ChannelId::Type.index();
    let pos = Vector3i::new(1, 1, 1);

    assert!(!data.try_set_voxel(3, pos, channel));

    let voxels = VoxelBuffer::with_size(Vector3i::splat(data.block_size() as i32));
    assert!(data.try_set_block(Vector3i::zero(), VoxelDataBlock::with_voxels(voxels, 0)));

    assert!(data.try_set_voxel(3, pos, channel));
    assert_eq!(data.get_voxel(pos, channel, 99), 3);
    assert!(data.try_get_block_voxels(Vector3i::zero()).is_some());
}

#[test]
fn mark_area_modified_sets_block_flags_once() {
    let mut data = VoxelData::new();
    data.set_bounds(Box3i::new(Vector3i::zero(), Vector3i::new(64, 16, 16)));
    data.set_streaming_enabled(false);
    data.set_full_load_completed(true);
    assert!(data.try_set_voxel(1, Vector3i::new(1, 1, 1), ChannelId::Type.index()));
    assert!(data.try_set_voxel(2, Vector3i::new(20, 1, 1), ChannelId::Type.index()));

    let changed = data.mark_area_modified(
        Box3i::new(Vector3i::zero(), Vector3i::new(32, 16, 16)),
        true,
    );

    assert_eq!(
        changed,
        vec![Vector3i::new(0, 0, 0), Vector3i::new(1, 0, 0)]
    );
    for block_pos in changed {
        let block = data.get_block(block_pos, 0).unwrap();
        assert!(block.is_modified());
        assert!(block.is_edited());
        assert!(block.needs_lodding());
    }

    let second = data.mark_area_modified(
        Box3i::new(Vector3i::zero(), Vector3i::new(32, 16, 16)),
        true,
    );
    assert!(second.is_empty());
}

#[test]
fn pre_generate_box_non_streaming_generates_missing_lod_blocks() {
    let mut data = VoxelData::new();
    data.set_lod_count(2).unwrap();
    data.set_streaming_enabled(false);
    let generator = RecordingGenerator::default();

    let generated = data.pre_generate_box(
        Box3i::new(Vector3i::zero(), Vector3i::new(32, 16, 16)),
        Some(&generator),
    );

    assert_eq!(generated, 3);
    assert_eq!(
        *generator.calls.lock().unwrap(),
        vec![
            (Vector3i::new(0, 0, 0), 0),
            (Vector3i::new(16, 0, 0), 0),
            (Vector3i::new(0, 0, 0), 1),
        ]
    );
    assert_eq!(
        data.get_block(Vector3i::new(1, 0, 0), 0)
            .unwrap()
            .voxels()
            .get_voxel(0, 0, 0, ChannelId::Type.index()),
        26
    );
    assert_eq!(
        data.get_block(Vector3i::zero(), 1)
            .unwrap()
            .voxels()
            .get_voxel(0, 0, 0, ChannelId::Type.index()),
        11
    );
}

#[test]
fn pre_generate_box_streaming_only_fills_existing_empty_blocks() {
    let mut data = VoxelData::new();
    let block_pos = Vector3i::zero();
    assert!(data.try_set_block(block_pos, VoxelDataBlock::empty(0)));
    let generator = RecordingGenerator::default();

    let generated = data.pre_generate_box(
        Box3i::new(Vector3i::zero(), Vector3i::new(32, 16, 16)),
        Some(&generator),
    );

    assert_eq!(generated, 1);
    assert!(data.try_get_block_voxels(block_pos).is_some());
    assert!(!data.has_block(Vector3i::new(1, 0, 0), 0));
}

#[test]
fn consume_block_modifications_copies_voxels_and_clears_modified_flag() {
    let mut data = VoxelData::new();
    data.set_bounds(Box3i::new(Vector3i::zero(), Vector3i::new(16, 16, 16)));
    data.set_streaming_enabled(false);
    data.set_full_load_completed(true);
    let channel = ChannelId::Type.index();
    assert!(data.try_set_voxel(7, Vector3i::new(1, 1, 1), channel));
    data.mark_area_modified(
        Box3i::new(Vector3i::zero(), Vector3i::new(16, 16, 16)),
        false,
    );

    let mut save = data
        .consume_block_modifications(Vector3i::zero())
        .expect("modified block should be consumed");

    assert_eq!(save.position, Vector3i::zero());
    assert_eq!(save.lod_index, 0);
    assert_eq!(save.voxels.as_ref().unwrap().get_voxel(1, 1, 1, channel), 7);
    save.voxels.as_mut().unwrap().set_voxel(9, 1, 1, 1, channel);
    assert_eq!(data.get_voxel(Vector3i::new(1, 1, 1), channel, 99), 7);
    assert!(!data.get_block(Vector3i::zero(), 0).unwrap().is_modified());
    assert!(data.consume_block_modifications(Vector3i::zero()).is_none());
}

#[test]
fn consume_all_modifications_collects_all_lods() {
    let mut data = VoxelData::new();
    data.set_lod_count(2).unwrap();
    data.set_bounds(Box3i::new(Vector3i::zero(), Vector3i::new(16, 16, 16)));
    data.set_streaming_enabled(false);
    data.set_full_load_completed(true);
    assert!(data.try_set_voxel(3, Vector3i::new(1, 1, 1), ChannelId::Type.index()));
    data.mark_area_modified(
        Box3i::new(Vector3i::zero(), Vector3i::new(16, 16, 16)),
        false,
    );

    let mut lod1_voxels = VoxelBuffer::with_size(Vector3i::splat(data.block_size() as i32));
    lod1_voxels.set_voxel(4, 0, 0, 0, ChannelId::Type.index());
    let mut lod1_block = VoxelDataBlock::with_voxels(lod1_voxels, 1);
    lod1_block.set_modified(true);
    assert!(data.try_set_block(Vector3i::new(2, 0, 0), lod1_block));

    let saves = data.consume_all_modifications();

    assert_eq!(saves.len(), 2);
    assert!(saves
        .iter()
        .any(|save| save.position == Vector3i::zero() && save.lod_index == 0));
    assert!(saves
        .iter()
        .any(|save| save.position == Vector3i::new(2, 0, 0) && save.lod_index == 1));
    assert!(!data.get_block(Vector3i::zero(), 0).unwrap().is_modified());
    assert!(!data
        .get_block(Vector3i::new(2, 0, 0), 1)
        .unwrap()
        .is_modified());
}

#[test]
fn unload_blocks_removes_blocks_and_returns_modified_voxels_to_save() {
    let mut data = VoxelData::new();
    data.set_bounds(Box3i::new(Vector3i::zero(), Vector3i::new(32, 16, 16)));
    data.set_streaming_enabled(false);
    data.set_full_load_completed(true);
    assert!(data.try_set_voxel(5, Vector3i::new(1, 1, 1), ChannelId::Type.index()));
    assert!(data.try_set_voxel(6, Vector3i::new(20, 1, 1), ChannelId::Type.index()));
    data.mark_area_modified(
        Box3i::new(Vector3i::zero(), Vector3i::new(16, 16, 16)),
        false,
    );

    let saves = data.unload_blocks(
        Box3i::new(Vector3i::zero(), Vector3i::new(2, 1, 1)),
        0,
        true,
    );

    assert_eq!(saves.len(), 1);
    assert_eq!(saves[0].position, Vector3i::zero());
    assert!(saves[0].voxels.is_some());
    assert!(!data.has_block(Vector3i::zero(), 0));
    assert!(!data.has_block(Vector3i::new(1, 0, 0), 0));
}

#[test]
fn update_lods_clears_needs_lodding_and_reports_touched_blocks() {
    let mut data = VoxelData::new();
    data.set_lod_count(2).unwrap();
    data.set_bounds(Box3i::new(Vector3i::zero(), Vector3i::splat(32)));
    data.set_streaming_enabled(false);
    data.set_full_load_completed(true);

    // Two LOD0 blocks need LOD updates.
    let channel = ChannelId::Type.index();
    assert!(data.try_set_voxel(1, Vector3i::new(1, 1, 1), channel));
    assert!(data.try_set_voxel(2, Vector3i::new(20, 1, 1), channel));
    let modified = data.mark_area_modified(
        Box3i::new(Vector3i::zero(), Vector3i::new(32, 16, 16)),
        true,
    );
    assert_eq!(modified.len(), 2);

    let mut updated = Vec::new();
    data.update_lods(&modified, None, Some(&mut updated));

    // LOD0 blocks: needs_lodding cleared and reported.
    for &lod0_pos in &modified {
        assert!(!data.get_block(lod0_pos, 0).unwrap().needs_lodding());
    }
    // Both LOD0 positions map to the same LOD1 block (0,0,0).
    assert!(updated.contains(&BlockLocation {
        position: Vector3i::zero(),
        lod_index: 0,
    }));
    assert!(updated.contains(&BlockLocation {
        position: Vector3i::new(1, 0, 0),
        lod_index: 0,
    }));
    assert!(updated.contains(&BlockLocation {
        position: Vector3i::zero(),
        lod_index: 1,
    }));
    // The destination LOD1 block is now modified.
    assert!(data.get_block(Vector3i::zero(), 1).unwrap().is_modified());
}

#[test]
fn update_lods_downscales_lod0_edits_into_lod1_octants() {
    let mut data = VoxelData::new();
    data.set_lod_count(2).unwrap();
    data.set_bounds(Box3i::new(Vector3i::zero(), Vector3i::splat(32)));
    data.set_streaming_enabled(false);
    data.set_full_load_completed(true);
    let channel = ChannelId::Type.index();

    // Edit a single LOD0 voxel inside block (1,0,0). This block maps to
    // the +X octant of LOD1 block (0,0,0). Local coords (4,4,6) are chosen
    // so the 2:1 nearest-neighbor sample lands at LOD1 (10,2,3).
    let edited_pos = Vector3i::new(20, 4, 6);
    assert!(data.try_set_voxel(7, edited_pos, channel));
    let modified = data.mark_area_modified(
        Box3i::new(edited_pos, edited_pos.plus(Vector3i::splat(1))),
        true,
    );
    assert_eq!(modified, vec![Vector3i::new(1, 0, 0)]);

    // Pre-create the destination LOD1 block so downscaling lands in it
    // (matches the streaming-pyramid invariant that parents are resident).
    let lod1_voxels = VoxelBuffer::with_size(Vector3i::splat(data.block_size() as i32));
    assert!(data.try_set_block(
        Vector3i::zero(),
        VoxelDataBlock::with_voxels(lod1_voxels, 1),
    ));

    data.update_lods(&modified, None, None);

    // The edited LOD0 voxel (20,4,6) maps to LOD1 (10,2,3) via 2:1 nearest.
    // In LOD1 block-local coords (block_size 16) that is (10,2,3).
    let lod1_block = data.get_block(Vector3i::zero(), 1).unwrap();
    assert_eq!(lod1_block.voxels().get_voxel(10, 2, 3, channel), 7);
    // A voxel outside the downscaled octant stays at the default.
    assert_eq!(lod1_block.voxels().get_voxel(0, 0, 0, channel), 0);
}

#[test]
fn update_lods_generates_missing_destination_in_non_streaming_mode() {
    let mut data = VoxelData::new();
    data.set_lod_count(2).unwrap();
    data.set_bounds(Box3i::new(Vector3i::zero(), Vector3i::splat(32)));
    data.set_streaming_enabled(false);
    data.set_full_load_completed(true);
    let channel = ChannelId::Type.index();

    assert!(data.try_set_voxel(11, Vector3i::new(1, 1, 1), channel));
    let modified = data.mark_area_modified(
        Box3i::new(Vector3i::zero(), Vector3i::new(16, 16, 16)),
        true,
    );

    // The destination LOD1 block doesn't exist; the generator must fill it
    // before the downscale runs. The recorder lets us observe the call.
    let generator = RecordingGenerator::default();
    data.update_lods(&modified, Some(&generator), None);

    // LOD1 block (0,0,0) was generated on demand and is now present.
    assert!(data.has_block(Vector3i::zero(), 1));
    assert!(generator
        .calls
        .lock()
        .unwrap()
        .iter()
        .any(|(origin, lod)| { *lod == 1 && origin.x == 0 && origin.y == 0 && origin.z == 0 }));
}

#[test]
fn update_lods_rearms_intermediate_blocks_for_repeated_edit_cascades() {
    let mut data = VoxelData::new();
    data.set_lod_count(3).unwrap();
    data.set_bounds(Box3i::new(Vector3i::zero(), Vector3i::splat(64)));
    data.set_streaming_enabled(false);
    data.set_full_load_completed(true);
    let channel = ChannelId::Type.index();
    let first_voxel = Vector3i::zero();
    let sibling_voxel = Vector3i::new(data.block_size() as i32, 0, 0);
    let edited_area = Box3i::new(Vector3i::zero(), Vector3i::new(32, 1, 1));

    assert!(data.try_set_voxel(11, first_voxel, channel));
    assert!(data.try_set_voxel(12, sibling_voxel, channel));
    let modified = data.mark_area_modified(edited_area, true);
    assert_eq!(modified, vec![Vector3i::zero(), Vector3i::new(1, 0, 0)]);

    let mut first_updated = Vec::new();
    data.update_lods(&modified, None, Some(&mut first_updated));
    assert_eq!(
        first_updated
            .iter()
            .filter(|location| location.lod_index == 2)
            .count(),
        1,
        "sibling LOD0 blocks sharing one LOD1 parent must enqueue that parent once"
    );
    assert_eq!(
        data.get_block(Vector3i::zero(), 2)
            .unwrap()
            .voxels()
            .get_voxel(0, 0, 0, channel),
        11
    );
    assert_eq!(
        data.get_block(Vector3i::zero(), 2)
            .unwrap()
            .voxels()
            .get_voxel(4, 0, 0, channel),
        12
    );

    assert!(data.try_set_voxel(21, first_voxel, channel));
    assert!(data.try_set_voxel(22, sibling_voxel, channel));
    let modified = data.mark_area_modified(edited_area, true);
    assert_eq!(modified, vec![Vector3i::zero(), Vector3i::new(1, 0, 0)]);

    let mut second_updated = Vec::new();
    data.update_lods(&modified, None, Some(&mut second_updated));
    assert_eq!(
        second_updated
            .iter()
            .filter(|location| location.lod_index == 2)
            .count(),
        1,
        "a later edit must re-enqueue the already-used LOD1 parent exactly once"
    );
    let lod2 = data.get_block(Vector3i::zero(), 2).unwrap();
    assert_eq!(lod2.voxels().get_voxel(0, 0, 0, channel), 21);
    assert_eq!(lod2.voxels().get_voxel(4, 0, 0, channel), 22);
    assert!(
        !data.get_block(Vector3i::zero(), 1).unwrap().needs_lodding(),
        "processed intermediate blocks must be ready for the next cascade"
    );
}

#[test]
fn view_area_increments_viewers_and_reports_found_and_missing_blocks() {
    let mut data = VoxelData::new();
    // Bounds cover a 4×4×4 block region so view queries can probe blocks
    // that exist alongside ones that don't, without being clipped out.
    data.set_bounds(Box3i::new(Vector3i::zero(), Vector3i::splat(64)));
    data.set_streaming_enabled(false);
    data.set_full_load_completed(true);
    let channel = ChannelId::Type.index();

    // Two loaded blocks; (2,0,0) is left empty within the queried area.
    assert!(data.try_set_voxel(1, Vector3i::new(1, 1, 1), channel));
    assert!(data.try_set_voxel(2, Vector3i::new(20, 1, 1), channel));

    let mut missing = Vec::new();
    let mut found_positions = Vec::new();
    let mut found_blocks: Vec<VoxelDataBlock> = Vec::new();
    data.view_area(
        Box3i::new(Vector3i::zero(), Vector3i::new(3, 1, 1)),
        0,
        Some(&mut missing),
        Some(&mut found_positions),
        Some(&mut found_blocks),
    );

    assert_eq!(
        found_positions,
        vec![Vector3i::zero(), Vector3i::new(1, 0, 0)]
    );
    assert_eq!(missing, vec![Vector3i::new(2, 0, 0)]);
    assert_eq!(found_blocks.len(), 2);
    // Viewers were incremented on the live blocks.
    assert_eq!(
        data.get_block(Vector3i::zero(), 0).unwrap().viewers.get(),
        1
    );
    assert_eq!(
        data.get_block(Vector3i::new(1, 0, 0), 0)
            .unwrap()
            .viewers
            .get(),
        1
    );
}

#[test]
fn owned_view_area_uses_lod_scaled_bounds() {
    let mut data = VoxelData::new();
    data.set_lod_count(3).unwrap();
    data.set_bounds(Box3i::new(
        Vector3i::new(1024, 0, 0),
        Vector3i::new(256, 256, 256),
    ));

    let lod_index = 2;
    let edge_position = Vector3i::new(19, 0, 0);
    let old_base_size_bounds = data.bounds().downscaled(data.block_size() as i32);
    assert!(!old_base_size_bounds.contains_point(edge_position));
    assert!(data.try_set_block(edge_position, VoxelDataBlock::empty(lod_index)));

    data.view_area(
        Box3i::new(edge_position, Vector3i::splat(1)),
        lod_index as usize,
        None,
        None,
        None,
    );
    assert_eq!(
        data.get_block(edge_position, lod_index as usize)
            .unwrap()
            .viewers
            .get(),
        1
    );

    let mut removed = Vec::new();
    data.unview_area(
        Box3i::new(edge_position, Vector3i::splat(1)),
        lod_index as usize,
        Some(&mut removed),
        None,
        None,
    );
    assert_eq!(removed, vec![edge_position]);
    assert!(!data.has_block(edge_position, lod_index as usize));
}

#[test]
fn unview_area_releases_viewers_and_removes_blocks_reaching_zero() {
    let mut data = VoxelData::new();
    data.set_bounds(Box3i::new(Vector3i::zero(), Vector3i::splat(32)));
    data.set_streaming_enabled(false);
    data.set_full_load_completed(true);
    let channel = ChannelId::Type.index();

    // Block A is unmodified; block B is modified and should be returned
    // for saving when it is unloaded by the unview.
    assert!(data.try_set_voxel(1, Vector3i::new(1, 1, 1), channel));
    assert!(data.try_set_voxel(2, Vector3i::new(20, 1, 1), channel));
    data.mark_area_modified(
        Box3i::new(Vector3i::new(16, 0, 0), Vector3i::new(32, 16, 16)),
        false,
    );

    // Pin both blocks, then release them.
    data.view_area(
        Box3i::new(Vector3i::zero(), Vector3i::new(2, 1, 1)),
        0,
        None,
        None,
        None,
    );
    let mut removed = Vec::new();
    let mut saves = Vec::new();
    data.unview_area(
        Box3i::new(Vector3i::zero(), Vector3i::new(2, 1, 1)),
        0,
        Some(&mut removed),
        None,
        Some(&mut saves),
    );

    assert_eq!(removed, vec![Vector3i::zero(), Vector3i::new(1, 0, 0)]);
    assert!(!data.has_block(Vector3i::zero(), 0));
    assert!(!data.has_block(Vector3i::new(1, 0, 0), 0));
    assert_eq!(saves.len(), 1);
    assert_eq!(saves[0].position, Vector3i::new(1, 0, 0));
    assert!(saves[0].voxels.is_some());
}

#[test]
fn unview_area_keeps_blocks_with_remaining_viewers() {
    let mut data = VoxelData::new();
    data.set_bounds(Box3i::new(Vector3i::zero(), Vector3i::splat(32)));
    data.set_streaming_enabled(false);
    data.set_full_load_completed(true);
    let channel = ChannelId::Type.index();
    assert!(data.try_set_voxel(1, Vector3i::new(1, 1, 1), channel));

    // View the same block twice; a single unview should leave it pinned.
    data.view_area(
        Box3i::new(Vector3i::zero(), Vector3i::splat(1)),
        0,
        None,
        None,
        None,
    );
    data.view_area(
        Box3i::new(Vector3i::zero(), Vector3i::splat(1)),
        0,
        None,
        None,
        None,
    );
    assert_eq!(
        data.get_block(Vector3i::zero(), 0).unwrap().viewers.get(),
        2
    );

    let mut removed = Vec::new();
    data.unview_area(
        Box3i::new(Vector3i::zero(), Vector3i::splat(1)),
        0,
        Some(&mut removed),
        None,
        None,
    );

    assert!(removed.is_empty());
    assert!(data.has_block(Vector3i::zero(), 0));
    assert_eq!(
        data.get_block(Vector3i::zero(), 0).unwrap().viewers.get(),
        1
    );
}

#[test]
fn set_generator_attaches_a_shared_handle_round_trippable_via_with_generator() {
    let mut data = VoxelData::new();
    assert!(!data.has_generator());

    let generator: SharedVoxelGenerator = Arc::new(RecordingGenerator::default());
    data.set_generator(Some(generator.clone()));
    assert!(data.has_generator());

    let mut probed = Vec::new();
    data.with_generator(|gen| {
        let _ = gen.used_channels_mask();
        probed.push(());
    });
    assert_eq!(probed.len(), 1);
    assert!(Arc::ptr_eq(data.generator().as_ref().unwrap(), &generator));
}

#[test]
fn copy_round_trips_through_lod0_with_generator_filling_missing_blocks() {
    let mut data = VoxelData::new();
    data.set_bounds(Box3i::new(Vector3i::zero(), Vector3i::splat(32)));
    data.set_streaming_enabled(false);
    let channel = ChannelId::Type.index();
    let generator: SharedVoxelGenerator = Arc::new(RecordingGenerator::default());
    data.set_generator(Some(generator));

    // No blocks loaded yet. Copy must invoke the generator for the area.
    let mut dst = VoxelBuffer::with_size(Vector3i::new(16, 16, 16));
    data.copy(Vector3i::zero(), &mut dst, 1u32 << channel, true);

    // RecordingGenerator writes `10 + lod + origin.x`; for block (0,0,0)
    // and lod 0 that is 10. The generator is invoked once per block here.
    assert_eq!(dst.get_voxel(0, 0, 0, channel), 10);
}

#[test]
fn copy_without_generator_returns_defaults_for_missing_blocks() {
    let mut data = VoxelData::new();
    data.set_bounds(Box3i::new(Vector3i::zero(), Vector3i::splat(32)));
    let channel = ChannelId::Type.index();
    let mut dst = VoxelBuffer::with_size(Vector3i::new(4, 4, 4));
    data.copy(Vector3i::zero(), &mut dst, 1u32 << channel, true);

    // No generator and no blocks: dst stays at default (0 for Type).
    assert_eq!(dst.get_voxel(0, 0, 0, channel), 0);
}

#[test]
fn paste_and_paste_masked_route_into_lod0_map() {
    let mut data = VoxelData::new();
    data.set_bounds(Box3i::new(Vector3i::zero(), Vector3i::splat(32)));
    data.set_streaming_enabled(false);
    data.set_full_load_completed(true);
    let channel = ChannelId::Type.index();
    let mask = 1u32 << channel;

    let mut source = VoxelBuffer::with_size(Vector3i::new(4, 4, 4));
    source.fill(7, channel);
    data.paste(Vector3i::zero(), &source, mask, true);
    assert_eq!(data.get_voxel(Vector3i::new(1, 1, 1), channel, 0), 7);

    // Masked paste: skip voxels equal to the mask sentinel.
    let mut masked_source = VoxelBuffer::with_size(Vector3i::new(2, 2, 2));
    masked_source.fill(9, channel);
    data.paste_masked(
        Vector3i::zero(),
        &masked_source,
        mask,
        channel,
        9, // skip everything → no writes
        true,
    );
    // Unchanged because every source voxel matched the mask sentinel.
    assert_eq!(data.get_voxel(Vector3i::zero(), channel, 0), 7);
}

#[test]
fn is_area_loaded_reflects_block_residency_and_streaming_bounds() {
    let mut data = VoxelData::new();
    data.set_bounds(Box3i::new(Vector3i::zero(), Vector3i::splat(32)));
    data.set_streaming_enabled(false);
    data.set_full_load_completed(true);

    let area = Box3i::new(Vector3i::zero(), Vector3i::splat(16));
    assert!(!data.is_area_loaded(area));

    assert!(data.try_set_voxel(1, Vector3i::new(1, 1, 1), ChannelId::Type.index()));
    assert!(data.is_area_loaded(area));

    // Streaming-mode short-circuit: area outside bounds returns false.
    data.set_streaming_enabled(true);
    assert!(!data.is_area_loaded(Box3i::new(Vector3i::new(100, 0, 0), Vector3i::splat(16),)));
}

#[test]
fn has_all_blocks_and_get_missing_blocks_agree() {
    let mut data = VoxelData::new();
    data.set_bounds(Box3i::new(Vector3i::zero(), Vector3i::splat(64)));
    data.set_streaming_enabled(false);
    data.set_full_load_completed(true);
    assert!(data.try_set_voxel(1, Vector3i::new(1, 1, 1), ChannelId::Type.index()));
    // Block (1,0,0) is intentionally left empty.

    let area = Box3i::new(Vector3i::zero(), Vector3i::new(2, 1, 1));
    assert!(!data.has_all_blocks_in_area(area, 0));

    let mut missing = Vec::new();
    data.get_missing_blocks(area, 0, &mut missing);
    assert_eq!(missing, vec![Vector3i::new(1, 0, 0)]);

    assert!(data.try_set_voxel(2, Vector3i::new(20, 1, 1), ChannelId::Type.index()));
    assert!(data.has_all_blocks_in_area(area, 0));
}

#[test]
fn get_blocks_with_voxel_data_returns_grid_with_empty_slots_for_missing() {
    let mut data = VoxelData::new();
    data.set_bounds(Box3i::new(Vector3i::zero(), Vector3i::splat(64)));
    data.set_streaming_enabled(false);
    data.set_full_load_completed(true);
    assert!(data.try_set_voxel(1, Vector3i::new(1, 1, 1), ChannelId::Type.index()));
    // Add an empty (no-voxels) block alongside.
    assert!(data.try_set_block(Vector3i::new(1, 0, 0), VoxelDataBlock::empty(0)));

    let blocks = data
        .get_blocks_with_voxel_data(Box3i::new(Vector3i::zero(), Vector3i::new(2, 1, 1)), 0);
    // ZXY layout: (0,0,0) is index 0, (1,0,0) is index 1.
    assert_eq!(blocks.len(), 2);
    assert!(blocks[0].is_some());
    assert!(blocks[1].is_none()); // empty block has no voxel data
}

#[test]
fn get_voxel_falls_back_to_generator_when_block_is_missing_non_streaming() {
    let mut data = VoxelData::new();
    data.set_bounds(Box3i::new(Vector3i::zero(), Vector3i::splat(64)));
    data.set_streaming_enabled(false);
    data.set_full_load_completed(true);
    let channel = ChannelId::Type.index();

    // RecordingGenerator writes `10 + lod + origin.x`. The default
    // `generate_single` impl passes the queried voxel position as the
    // 1×1×1 block's origin, so for voxel (20,5,5) the result is 10+0+20=30.
    let generator: SharedVoxelGenerator = Arc::new(RecordingGenerator::default());
    data.set_generator(Some(generator));

    let value = data.get_voxel(Vector3i::new(20, 5, 5), channel, 0);
    assert_eq!(value, 30);
}

#[test]
fn get_voxel_returns_defval_when_no_generator_and_block_missing_non_streaming() {
    let mut data = VoxelData::new();
    data.set_bounds(Box3i::new(Vector3i::zero(), Vector3i::splat(64)));
    data.set_streaming_enabled(false);
    data.set_full_load_completed(true);

    // No generator: the fallback returns the caller-provided default.
    assert_eq!(
        data.get_voxel(Vector3i::new(20, 5, 5), ChannelId::Type.index(), 99),
        99
    );
}
