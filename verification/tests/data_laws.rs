//! What holds of voxel data, on given values.

use std::sync::Arc;
use voxel_storage::boxes::{
    bounds_in_lod_blocks, checked_box_intersection, checked_lod_block_bounds, Box3i, BoxBounds3i,
};
use voxel_storage::channel::ChannelId;
use voxel_storage::depth::ChannelDepth;
use voxel_storage::generator::{generate_single_from_block, VoxelGenerator, VoxelStream};
use voxel_storage::math::{floor_div, Vector3i};
use voxel_storage::spatial_lock::{LockedRegion, SpatialLock3D};
use voxel_storage::voxel_buffer::VoxelBuffer;
use voxel_storage::voxel_data::{BlockLocation, VoxelData, VoxelDataLodResizeError, MAX_LOD};
use voxel_storage::voxel_data_block::{Viewers, VoxelDataBlock};
use voxel_storage::voxel_data_map::VoxelDataMap;
use voxel_storage::voxel_format::VoxelFormat;

const TYPE: usize = 0;
const COLOR: usize = 2;

/// Gives every voxel a number made of its block and level.
struct NumberingGenerator;

impl VoxelGenerator for NumberingGenerator {
    fn generate_block(&self, buffer: &mut VoxelBuffer, origin_in_voxels: Vector3i, lod: u32) {
        let number = 100 * lod as i64 + origin_in_voxels.x as i64 + 1;
        buffer.fill(number as u64, TYPE);
    }

    fn generate_single(&self, pos: Vector3i, channel_index: usize) -> u64 {
        generate_single_from_block(self, pos, channel_index)
    }

    fn used_channels_mask(&self) -> u32 {
        1 << TYPE
    }
}

struct NoStream;

impl VoxelStream for NoStream {
    fn used_channels_mask(&self) -> u32 {
        0
    }
}

/// Data that is loaded as a whole.
fn loaded_data(lod_count: usize) -> VoxelData {
    let mut data = VoxelData::default();
    data.set_lod_count(lod_count).unwrap();
    data.set_bounds(Box3i::new(Vector3i::splat(-64), Vector3i::splat(128)));
    data.set_streaming_enabled(false);
    data.set_full_load_completed(true);
    data
}

fn block(value: u64, lod_index: u8) -> VoxelDataBlock {
    let mut voxels = VoxelBuffer::with_size(Vector3i::splat(VoxelDataMap::BLOCK_SIZE as i32));
    voxels.fill(value, TYPE);
    VoxelDataBlock::with_voxels(voxels, lod_index)
}

#[test]
fn set_voxels_of_data_are_read() {
    let mut data = loaded_data(1);
    let pos = Vector3i::new(-1, 17, 5);
    assert!(data.try_set_voxel(0x12345, pos, TYPE));
    assert_eq!(data.get_voxel(pos, TYPE, 99), 0x2345);
    assert_eq!(data.get_voxel(Vector3i::new(-2, 17, 5), TYPE, 99), 0);
    // Outside the bounds the default is read, and nothing is set.
    let outside = Vector3i::new(64, 0, 0);
    assert!(!data.try_set_voxel(1, outside, TYPE));
    assert_eq!(data.get_voxel(outside, TYPE, 99), 99);
    assert_eq!(data.block_count(), 1);
    assert!(data.has_block(Vector3i::new(-1, 1, 0), 0));
    // Before everything is loaded, nothing is read.
    data.set_full_load_completed(false);
    assert_eq!(data.get_voxel(pos, TYPE, 99), 99);
    assert_eq!(data.resident_voxel(pos, TYPE), Some(0x2345));
}

#[test]
fn setting_a_voxel_leaves_the_other_blocks_alone() {
    let mut data = loaded_data(2);
    assert!(data.try_set_block(Vector3i::zero(), block(3, 0)));
    assert!(data.try_set_block(Vector3i::zero(), block(4, 1)));
    assert!(!data.try_set_block(Vector3i::zero(), block(5, 1)));
    assert!(data.try_set_voxel(9, Vector3i::new(16, 0, 0), TYPE));
    assert_eq!(data.get_voxel(Vector3i::new(15, 0, 0), TYPE, 0), 3);
    let coarse = data.get_block(Vector3i::zero(), 1).unwrap();
    assert_eq!(coarse.voxels().get_voxel(8, 0, 0, TYPE), 4);
}

#[test]
fn streamed_voxels_are_read_from_the_finest_level_that_has_them() {
    let mut data = loaded_data(3);
    data.set_streaming_enabled(true);
    let mut coarse = block(0, 2);
    coarse.voxels_mut().set_voxel(7, 5, 6, 15, TYPE);
    assert!(data.try_set_block(Vector3i::new(0, 0, -1), coarse));
    let pos = Vector3i::new(21, 26, -2);
    assert_eq!(data.get_voxel(pos, TYPE, 0), 7);
    assert!(data.try_set_block(Vector3i::new(0, 0, -1), block(8, 1)));
    assert_eq!(data.get_voxel(pos, TYPE, 0), 8);
    assert!(data.try_set_block(Vector3i::new(1, 1, -1), VoxelDataBlock::empty(0)));
    assert_eq!(data.get_voxel(pos, TYPE, 0), 8);
    assert!(data.try_set_voxel(6, pos, TYPE));
    assert_eq!(data.get_voxel(pos, TYPE, 0), 6);
    // Without a block the generator is asked for the single voxel.
    let far = Vector3i::new(40, 0, 60);
    assert_eq!(data.get_voxel(far, TYPE, 5), 5);
    data.set_generator(Some(Arc::new(NumberingGenerator)));
    assert_eq!(data.get_voxel(far, TYPE, 5), 41);
}

#[test]
fn nothing_is_missing_exactly_where_all_blocks_are() {
    let mut data = loaded_data(1);
    let area = Box3i::new(Vector3i::new(-1, 0, 0), Vector3i::new(2, 1, 2));
    for x in -1..1 {
        for z in 0..2 {
            let position = Vector3i::new(x, 0, z);
            let mut missing = Vec::new();
            data.get_missing_blocks(area, 0, &mut missing);
            assert_eq!(missing.is_empty(), data.has_all_blocks_in_area(area, 0));
            assert!(missing.contains(&position));
            assert!(data.try_set_block(position, block(1, 0)));
        }
    }
    let mut missing = Vec::new();
    data.get_missing_blocks(area, 0, &mut missing);
    assert!(missing.is_empty());
    assert!(data.has_all_blocks_in_area(area, 0));
    // At a level that does not exist everything is missing, in ZXY order.
    data.get_missing_blocks(area, 1, &mut missing);
    assert_eq!(
        missing,
        vec![
            Vector3i::new(-1, 0, 0),
            Vector3i::new(0, 0, 0),
            Vector3i::new(-1, 0, 1),
            Vector3i::new(0, 0, 1),
        ]
    );
    assert!(!data.has_all_blocks_in_area(area, 1));
}

#[test]
fn releasing_an_area_undoes_viewing_it() {
    let mut data = loaded_data(1);
    let mut viewed = block(1, 0);
    viewed.set_viewers(2);
    assert!(data.try_set_block(Vector3i::zero(), viewed));
    let area = Box3i::new(Vector3i::zero(), Vector3i::new(2, 1, 1));
    let mut missing = Vec::new();
    let mut found = Vec::new();
    let mut copies = Vec::new();
    data.view_area(
        area,
        0,
        Some(&mut missing),
        Some(&mut found),
        Some(&mut copies),
    );
    assert_eq!(missing, vec![Vector3i::new(1, 0, 0)]);
    assert_eq!(found, vec![Vector3i::zero()]);
    assert_eq!(copies[0].viewers(), 3);
    assert_eq!(copies[0].voxels().get_voxel(4, 5, 6, TYPE), 1);
    let mut removed = Vec::new();
    let mut absent = Vec::new();
    data.unview_area(area, 0, Some(&mut removed), Some(&mut absent), None);
    assert!(removed.is_empty());
    assert_eq!(absent, missing);
    assert_eq!(data.get_block(Vector3i::zero(), 0).unwrap().viewers(), 2);
    // The last viewer takes the block along.
    data.unview_area(area, 0, None, None, None);
    let mut saves = Vec::new();
    data.get_block(Vector3i::zero(), 0).unwrap();
    data.unview_area(area, 0, Some(&mut removed), None, Some(&mut saves));
    assert_eq!(removed, vec![Vector3i::zero()]);
    assert!(saves.is_empty());
    assert_eq!(data.block_count(), 0);
}

#[test]
fn a_block_without_viewers_goes_when_it_is_viewed_and_released() {
    let mut data = loaded_data(1);
    let mut dirty = block(3, 0);
    dirty.set_modified(true);
    assert!(data.try_set_block(Vector3i::zero(), dirty));
    let area = Box3i::new(Vector3i::zero(), Vector3i::splat(1));
    data.view_area(area, 0, None, None, None);
    let mut saves = Vec::new();
    data.unview_area(area, 0, None, None, Some(&mut saves));
    assert_eq!(data.block_count(), 0);
    assert_eq!(saves.len(), 1);
    assert_eq!(saves[0].position, Vector3i::zero());
    assert_eq!(saves[0].block_revision, 0);
    let voxels = saves[0].voxels.as_ref().unwrap();
    assert_eq!(voxels.get_voxel(0, 0, 0, TYPE), 3);
}

#[test]
fn releasing_a_viewed_area_drops_what_nobody_watched() {
    let mut data = loaded_data(2);
    let mut watched = block(1, 1);
    watched.set_viewers(3);
    let mut dirty = block(2, 1);
    dirty.set_modified(true);
    assert!(data.try_set_block(Vector3i::new(0, 0, 0), watched));
    assert!(data.try_set_block(Vector3i::new(1, 0, 0), dirty));
    assert!(data.try_set_block(Vector3i::new(0, 1, 0), block(3, 1)));
    assert!(data.try_set_block(Vector3i::new(-1, 0, 0), block(4, 1)));
    assert!(data.try_set_block(Vector3i::new(1, 0, 0), block(5, 0)));
    let area = Box3i::new(Vector3i::zero(), Vector3i::new(2, 2, 1));
    data.view_area(area, 1, None, None, None);
    let mut removed = vec![Vector3i::splat(9)];
    let mut missing = Vec::new();
    let mut saves = Vec::new();
    data.unview_area(
        area,
        1,
        Some(&mut removed),
        Some(&mut missing),
        Some(&mut saves),
    );
    assert_eq!(
        removed,
        vec![
            Vector3i::splat(9),
            Vector3i::new(0, 1, 0),
            Vector3i::new(1, 0, 0)
        ]
    );
    assert_eq!(missing, vec![Vector3i::new(1, 1, 0)]);
    assert_eq!(saves.len(), 1);
    assert_eq!(saves[0].position, Vector3i::new(1, 0, 0));
    assert_eq!(saves[0].lod_index, 1);
    let voxels = saves[0].voxels.as_ref().unwrap();
    assert_eq!(voxels.get_voxel(0, 0, 0, TYPE), 2);
    assert_eq!(data.get_block(Vector3i::zero(), 1).unwrap().viewers(), 3);
    assert_eq!(data.get_block(Vector3i::new(-1, 0, 0), 1).unwrap().viewers(), 0);
    assert!(data.has_block(Vector3i::new(1, 0, 0), 0));
    assert_eq!(data.block_count(), 3);
}

#[test]
fn the_default_is_read_of_any_channel_where_nothing_is_looked_up() {
    let mut data = loaded_data(1);
    assert!(data.try_set_voxel(1, Vector3i::zero(), TYPE));
    let outside = Vector3i::new(64, 0, 0);
    assert_eq!(data.get_voxel(outside, 8, 99), 99);
    assert!(!data.try_set_voxel(1, outside, 8));
    assert_eq!(data.get_voxel(Vector3i::new(20, 0, 0), 8, 99), 99);
    data.set_full_load_completed(false);
    assert_eq!(data.get_voxel(Vector3i::zero(), usize::MAX, 99), 99);
}

#[test]
fn setting_a_voxel_changes_no_other_one() {
    let mut data = loaded_data(1);
    assert!(data.try_set_block(Vector3i::zero(), block(3, 0)));
    let pos = Vector3i::new(4, 5, 6);
    assert!(data.try_set_voxel(9, pos, TYPE));
    for z in 0..16 {
        for x in 0..16 {
            for y in 0..16 {
                let other = Vector3i::new(x, y, z);
                let value = if other == pos { 9 } else { 3 };
                assert_eq!(data.get_voxel(other, TYPE, 99), value);
                assert_eq!(data.get_voxel(other, COLOR, 99), 0);
            }
        }
    }
    // A value beyond the depth of its channel is cut once another voxel is set.
    let mut wide = VoxelBuffer::with_size(Vector3i::splat(16));
    wide.fill(0x1_0003, TYPE);
    let beside = Vector3i::new(1, 0, 0);
    assert!(data.try_set_block(beside, VoxelDataBlock::with_voxels(wide, 0)));
    assert_eq!(data.get_voxel(Vector3i::new(17, 0, 0), TYPE, 99), 0x1_0003);
    assert!(data.try_set_voxel(9, Vector3i::new(16, 0, 0), TYPE));
    assert_eq!(data.get_voxel(Vector3i::new(17, 0, 0), TYPE, 99), 3);
}

#[test]
fn added_levels_can_be_dropped_again() {
    let mut data = loaded_data(2);
    assert!(data.try_set_block(Vector3i::zero(), block(3, 1)));
    data.set_lod_count(5).unwrap();
    assert_eq!(data.lod_count(), 5);
    data.set_lod_count(2).unwrap();
    assert!(data.has_block(Vector3i::zero(), 1));
    assert_eq!(
        data.set_lod_count(1),
        Err(VoxelDataLodResizeError::NonEmptyTruncatedLod { lod_index: 1 })
    );
    assert_eq!(
        data.set_lod_count(MAX_LOD),
        Err(VoxelDataLodResizeError::InvalidLodCount { requested: MAX_LOD })
    );
    assert_eq!(
        data.set_lod_count(0),
        Err(VoxelDataLodResizeError::InvalidLodCount { requested: 0 })
    );
    data.set_lod_count(MAX_LOD - 1).unwrap();
    assert_eq!(data.lod_count(), 23);
}

#[test]
fn unloaded_blocks_are_gone_and_the_others_stay() {
    let mut data = loaded_data(1);
    for x in 0..3 {
        let mut b = block(x, 0);
        b.set_modified(x == 1);
        assert!(data.try_set_block(Vector3i::new(x as i32, 0, 0), b));
    }
    let area = Box3i::new(Vector3i::zero(), Vector3i::new(2, 1, 1));
    let saves = data.unload_blocks(area, 0, true);
    assert_eq!(saves.len(), 1);
    assert_eq!(saves[0].position, Vector3i::new(1, 0, 0));
    assert_eq!(data.block_count(), 1);
    assert!(data.has_block(Vector3i::new(2, 0, 0), 0));
    assert!(data.unload_blocks(area, 7, true).is_empty());
}

#[test]
fn marking_twice_marks_nothing_new() {
    let mut data = loaded_data(1);
    assert!(data.try_set_block(Vector3i::zero(), block(1, 0)));
    assert!(data.try_set_block(Vector3i::new(1, 0, 0), VoxelDataBlock::empty(0)));
    let area = Box3i::new(Vector3i::new(3, 3, 3), Vector3i::new(20, 1, 1));
    assert!(data.mark_area_modified(area, false).is_empty());
    assert!(data.get_block(Vector3i::zero(), 0).unwrap().is_edited());
    assert_eq!(data.mark_area_modified(area, true), vec![Vector3i::zero()]);
    assert!(data.mark_area_modified(area, true).is_empty());
    assert!(!data
        .get_block(Vector3i::new(1, 0, 0), 0)
        .unwrap()
        .is_modified());
}

#[test]
fn modifications_are_taken_once() {
    let mut data = loaded_data(2);
    for lod_index in 0..2 {
        let mut b = block(lod_index, lod_index as u8);
        b.set_modified(true);
        assert!(data.try_set_block(Vector3i::new(5, 0, 0), b));
    }
    let save = data.consume_block_modifications(Vector3i::new(5, 0, 0));
    assert_eq!(save.unwrap().lod_index, 0);
    assert!(data
        .consume_block_modifications(Vector3i::new(5, 0, 0))
        .is_none());
    let saves = data.consume_all_modifications();
    assert_eq!(saves.len(), 1);
    assert_eq!(saves[0].lod_index, 1);
    assert!(data.consume_all_modifications().is_empty());
}

#[test]
fn what_was_pasted_is_copied_back() {
    let mut data = loaded_data(1);
    let size = Vector3i::new(20, 3, 18);
    let mut src = VoxelBuffer::with_size(size);
    for z in 0..size.z {
        for x in 0..size.x {
            for y in 0..size.y {
                src.set_voxel((x + 20 * y + 60 * z) as u64, x, y, z, TYPE);
                src.set_voxel((x + y + z) as u64, x, y, z, COLOR);
            }
        }
    }
    let min_pos = Vector3i::new(-7, 14, -33);
    data.paste(min_pos, &src, 1 << TYPE | 1 << COLOR, true);
    assert_eq!(data.block_count(), 2 * 2 * 3);
    let mut copy = VoxelBuffer::with_size(size);
    data.copy(min_pos, &mut copy, 1 << TYPE, false);
    for z in 0..size.z {
        for x in 0..size.x {
            for y in 0..size.y {
                assert_eq!(
                    copy.get_voxel(x, y, z, TYPE),
                    src.get_voxel(x, y, z, TYPE)
                );
                assert_eq!(copy.get_voxel(x, y, z, COLOR), 0);
                let pos = Vector3i::new(x, y, z).plus(min_pos);
                assert_eq!(
                    data.get_voxel(pos, COLOR, 1000),
                    (x + y + z) as u64
                );
            }
        }
    }
    // A copy of no channel leaves the buffer as it is.
    let mut untouched = VoxelBuffer::with_size(size);
    untouched.set_channel_depth(COLOR, ChannelDepth::Bit64);
    data.copy(min_pos, &mut untouched, 0, true);
    assert_eq!(untouched.channel_depth(COLOR), ChannelDepth::Bit64);
}

#[test]
fn pastes_make_no_blocks_unless_that_is_wanted() {
    let mut data = loaded_data(1);
    let mut src = VoxelBuffer::with_size(Vector3i::splat(2));
    src.fill(5, TYPE);
    data.paste(Vector3i::new(15, 0, 0), &src, 1, false);
    assert_eq!(data.block_count(), 0);
    assert!(data.try_set_block(Vector3i::zero(), block(1, 0)));
    data.paste(Vector3i::new(15, 0, 0), &src, 1, false);
    assert_eq!(data.block_count(), 1);
    assert_eq!(data.get_voxel(Vector3i::new(15, 1, 1), TYPE, 0), 5);
    assert_eq!(data.get_voxel(Vector3i::new(14, 1, 1), TYPE, 0), 1);
}

#[test]
fn masks_keep_voxels_out_of_a_paste() {
    let mut data = loaded_data(1);
    assert!(data.try_set_block(Vector3i::zero(), block(1, 0)));
    assert!(data.try_set_voxel(2, Vector3i::new(1, 0, 0), TYPE));
    assert!(data.try_set_voxel(3, Vector3i::new(2, 0, 0), TYPE));
    let mut src = VoxelBuffer::with_size(Vector3i::new(4, 1, 1));
    for (x, value) in [10, 11, 12, 13].into_iter().enumerate() {
        src.set_voxel(value, x as i32, 0, 0, TYPE);
        src.set_voxel(value + 10, x as i32, 0, 0, COLOR);
    }
    // The source skips 13; the destination takes ones and threes only.
    data.paste_masked_with_destination_mask(
        Vector3i::zero(),
        &src,
        1 << TYPE | 1 << COLOR,
        TYPE,
        13,
        TYPE,
        &[1, 3],
        true,
    );
    let read = |data: &VoxelData, channel| -> Vec<u64> {
        (0..4)
            .map(|x| data.get_voxel(Vector3i::new(x, 0, 0), channel, 99))
            .collect()
    };
    assert_eq!(read(&data, TYPE), vec![10, 2, 12, 1]);
    assert_eq!(read(&data, COLOR), vec![20, 0, 22, 0]);
    data.paste_masked(Vector3i::zero(), &src, 1 << TYPE, COLOR, 21, true);
    assert_eq!(read(&data, TYPE), vec![10, 2, 12, 13]);
}

#[test]
fn missing_blocks_are_generated_into_a_copy_where_their_origin_is_in_bounds() {
    let mut data = loaded_data(1);
    data.set_bounds(Box3i::new(Vector3i::zero(), Vector3i::splat(32)));
    data.set_generator(Some(Arc::new(NumberingGenerator)));
    assert!(data.has_generator());
    let mut copy = VoxelBuffer::with_size(Vector3i::new(34, 1, 1));
    data.copy(Vector3i::new(-1, 0, 0), &mut copy, 1 << TYPE, true);
    assert_eq!(copy.get_voxel(0, 0, 0, TYPE), 0);
    assert_eq!(copy.get_voxel(1, 0, 0, TYPE), 1);
    assert_eq!(copy.get_voxel(17, 0, 0, TYPE), 17);
    assert_eq!(copy.get_voxel(32, 0, 0, TYPE), 17);
    assert_eq!(copy.get_voxel(33, 0, 0, TYPE), 0);
    assert_eq!(data.block_count(), 0);
}

#[test]
fn edits_reach_every_coarser_level() {
    let mut data = loaded_data(3);
    let pos = Vector3i::new(-4, 20, 8);
    assert!(data.try_set_voxel(6, pos, TYPE));
    let area = Box3i::new(pos, Vector3i::splat(1));
    let marked = data.mark_area_modified(area, true);
    let mut updated = Vec::new();
    data.update_lods(&marked, Some(&NumberingGenerator), Some(&mut updated));
    let at = |x, y, z, lod_index| BlockLocation {
        position: Vector3i::new(x, y, z),
        lod_index,
    };
    assert_eq!(
        updated,
        vec![at(-1, 1, 0, 0), at(-1, 0, 0, 1), at(-1, 0, 0, 2)]
    );
    let lod1 = data.get_block(Vector3i::new(-1, 0, 0), 1).unwrap();
    assert_eq!(lod1.voxels().get_voxel(14, 10, 4, TYPE), 6);
    let lod2 = data.get_block(Vector3i::new(-1, 0, 0), 2).unwrap();
    assert_eq!(lod2.voxels().get_voxel(15, 5, 2, TYPE), 6);
    assert!(lod2.is_modified());
    assert!(!lod2.needs_lodding());
    // Blocks beside the edit come from the generator.
    assert_eq!(
        lod2.voxels().get_voxel(0, 15, 15, TYPE),
        (201u64.wrapping_sub(64)) & 0xffff
    );
}

#[test]
fn generated_levels_fill_the_box() {
    let mut data = loaded_data(2);
    let area = Box3i::new(Vector3i::new(-1, 0, 0), Vector3i::new(18, 1, 1));
    assert_eq!(data.pre_generate_box(area, Some(&NumberingGenerator)), 5);
    assert_eq!(data.pre_generate_box(area, Some(&NumberingGenerator)), 0);
    assert_eq!(data.get_voxel(Vector3i::new(16, 0, 0), TYPE, 0), 17);
    let coarse = data.get_block(Vector3i::zero(), 1).unwrap();
    assert_eq!(coarse.voxels().get_voxel(0, 0, 0, TYPE), 101);
}

#[test]
fn settings_are_kept_and_a_new_format_drops_all_blocks() {
    let mut data = loaded_data(2);
    assert!(data.try_set_block(Vector3i::zero(), block(1, 1)));
    assert!(!data.has_stream());
    data.set_stream(Some(Arc::new(NoStream)));
    assert!(data.stream().is_some());
    data.set_format(data.format());
    assert_eq!(data.block_count(), 1);
    let mut format = VoxelFormat::new();
    format.depths[COLOR] = ChannelDepth::Bit32;
    data.set_format(format);
    assert_eq!(data.block_count(), 0);
    assert_eq!(data.lod_count(), 2);
    assert!(data.has_stream());
    assert!(!data.is_streaming_enabled());
    assert!(data.is_full_load_completed());
    assert!(data.try_set_voxel(0x1234_5678, Vector3i::zero(), COLOR));
    assert_eq!(data.get_voxel(Vector3i::zero(), COLOR, 0), 0x1234_5678);
    assert!(data
        .with_generator(|generator| generator.used_channels_mask())
        .is_none());
}

#[test]
fn positions_divide_downwards() {
    let data = VoxelData::new();
    assert_eq!(
        data.voxel_to_block(Vector3i::new(-1, 15, 16)),
        Vector3i::new(-1, 0, 1)
    );
    assert_eq!(
        data.block_to_voxel(Vector3i::new(-1, 0, 1)),
        Vector3i::new(-16, 0, 16)
    );
    assert_eq!(
        VoxelDataMap::to_local(Vector3i::new(-1, 15, 16)),
        Vector3i::new(15, 15, 0)
    );
    assert_eq!(floor_div(-17, 16), -2);
    assert_eq!(data.block_size(), 16);
    assert_eq!(data.block_size_po2(), 4);
}

#[test]
fn boxes_are_cut_and_scaled() {
    let a = Box3i::new(Vector3i::zero(), Vector3i::splat(4));
    let b = Box3i::new(Vector3i::new(2, -1, 3), Vector3i::splat(4));
    assert_eq!(
        checked_box_intersection(a, b).unwrap(),
        Box3i::new(Vector3i::new(2, 0, 3), Vector3i::new(2, 3, 1))
    );
    let far = Box3i::new(Vector3i::splat(i32::MAX), Vector3i::splat(1));
    assert!(checked_box_intersection(a, far).is_err());
    assert_eq!(
        Box3i::new(Vector3i::new(-3, 5, 0), Vector3i::new(6, 1, 17)).downscaled(16),
        Box3i::new(Vector3i::new(-1, 0, 0), Vector3i::new(2, 1, 2))
    );
    assert_eq!(
        bounds_in_lod_blocks(Box3i::new(Vector3i::splat(-20), Vector3i::splat(60)), 1).unwrap(),
        Box3i::new(Vector3i::splat(-1), Vector3i::splat(3))
    );
    assert_eq!(
        checked_lod_block_bounds(Box3i::new(Vector3i::splat(-1), Vector3i::splat(2)), 1),
        Some(BoxBounds3i::new(
            Vector3i::splat(-32),
            Vector3i::splat(32)
        ))
    );
    assert_eq!(
        checked_lod_block_bounds(
            Box3i::new(Vector3i::splat(i32::MAX / 16), Vector3i::splat(1)),
            0
        ),
        None
    );
}

#[test]
fn writers_share_space_with_nobody() {
    let mut lock = SpatialLock3D::new();
    let at = |x: i32| BoxBounds3i::new(Vector3i::new(x, 0, 0), Vector3i::new(x + 2, 2, 2));
    assert!(lock.try_lock_read(at(0)));
    assert!(lock.try_lock_read(at(1)));
    assert!(!lock.try_lock_write(at(1)));
    assert!(lock.try_lock_write(at(3)));
    assert!(!lock.try_lock_read(at(4)));
    assert!(!lock.allows_write(at(4)));
    assert!(lock.allows_read(at(5)));
    assert_eq!(lock.locked_boxes_count(), 3);
    lock.unlock(LockedRegion {
        bounds: at(3),
        write: true,
    });
    assert!(lock.try_lock_read(at(4)));
    assert_eq!(lock.locked_boxes_count(), 3);
}

#[test]
fn blocks_keep_their_state_when_voxels_come_and_go() {
    let mut b = VoxelDataBlock::empty(3);
    b.set_needs_lodding(true);
    b.add_viewer();
    b.add_viewer();
    b.remove_viewer();
    assert_eq!(b.viewers(), 1);
    b.set_voxels(VoxelBuffer::with_size(Vector3i::splat(16)));
    assert!(b.has_voxels());
    assert!(b.needs_lodding());
    assert_eq!(b.lod_index(), 3);
    b.clear_voxels();
    assert!(!b.has_voxels());
    assert!(b.into_voxels().is_none());
    let mut viewers = Viewers::new();
    viewers.set_exact(u32::MAX);
    viewers.add();
    assert_eq!(viewers.get(), u32::MAX);
    assert_eq!(ChannelId::Type.index(), TYPE);
}

#[test]
fn blocks_out_of_bounds_are_not_needed() {
    let mut data = VoxelData::new();
    data.set_bounds(Box3i::new(Vector3i::zero(), Vector3i::splat(16)));
    data.set_streaming_enabled(false);
    data.set_full_load_completed(true);
    let area = Box3i::new(Vector3i::zero(), Vector3i::new(2, 1, 1));
    assert!(!data.has_all_blocks_in_area(area, 0));
    assert!(data.try_set_voxel(1, Vector3i::splat(1), TYPE));
    assert!(data.has_all_blocks_in_area(area, 0));
    // What is missing all the same lies out of bounds.
    let mut missing = Vec::new();
    data.get_missing_blocks(area, 0, &mut missing);
    assert_eq!(missing, vec![Vector3i::new(1, 0, 0)]);
    assert!(!data.has_all_blocks_in_area(area, 1));
    // One voxel more of bounds, and the neighbour is needed.
    data.set_bounds(Box3i::new(Vector3i::zero(), Vector3i::new(17, 16, 16)));
    assert!(!data.has_all_blocks_in_area(area, 0));
    // A box without cells has all its blocks.
    let nowhere = Box3i::new(Vector3i::splat(5), Vector3i::zero());
    assert!(data.has_all_blocks_in_area(nowhere, 0));
}

#[test]
fn levels_are_added_exactly_where_there_is_room() {
    let mut data = VoxelData::new();
    assert_eq!(data.lod_count(), 1);
    assert_eq!(
        data.resize_lods_reserved(3, false),
        Err(VoxelDataLodResizeError::CapacityReservationFailed)
    );
    assert_eq!(data.lod_count(), 1);
    assert_eq!(data.resize_lods_reserved(3, true), Ok(()));
    assert_eq!(data.lod_count(), 3);
    assert_eq!(data.block_count(), 0);
    // Dropping levels needs no room.
    assert_eq!(data.resize_lods_reserved(2, false), Ok(()));
    assert_eq!(
        data.resize_lods_reserved(0, true),
        Err(VoxelDataLodResizeError::InvalidLodCount { requested: 0 })
    );
    assert_eq!(data.lod_count(), 2);
}

#[test]
fn missing_blocks_are_copied_as_defaults() {
    let mut data = loaded_data(1);
    let mut copy = VoxelBuffer::with_size(Vector3i::new(20, 1, 1));
    copy.fill(5, TYPE);
    copy.fill(6, COLOR);
    assert!(data.try_set_block(Vector3i::new(1, 0, 0), block(9, 0)));
    data.copy(Vector3i::zero(), &mut copy, 1 << TYPE, false);
    assert_eq!(copy.get_voxel(0, 0, 0, TYPE), 0);
    assert_eq!(copy.get_voxel(15, 0, 0, TYPE), 0);
    assert_eq!(copy.get_voxel(16, 0, 0, TYPE), 9);
    assert_eq!(copy.get_voxel(19, 0, 0, TYPE), 9);
    // A channel that was not asked for stays.
    assert_eq!(copy.get_voxel(0, 0, 0, COLOR), 6);
}

#[test]
fn parents_hold_every_second_voxel_of_their_children() {
    let mut data = loaded_data(2);
    for x in 0..16 {
        assert!(data.try_set_voxel(x as u64 + 1, Vector3i::new(16 + x, 2, 4), TYPE));
    }
    data.update_lods(&[Vector3i::new(1, 0, 0)], None, None);
    let parent = data.get_block(Vector3i::zero(), 1).unwrap().voxels();
    for x in 0..8 {
        assert_eq!(parent.get_voxel(8 + x, 1, 2, TYPE), 2 * x as u64 + 1);
        assert_eq!(parent.get_voxel(x, 1, 2, TYPE), 0);
    }
}
