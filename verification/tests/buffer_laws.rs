//! What holds of voxel buffers and arrays, on given values.

use std::sync::Arc;
use voxel_storage::channel::{
    channel_id_from_index, get_default_indices_raw_value, get_default_raw_value,
    get_default_sdf_raw_value, Allocator, ChannelData, ChannelId, Compression, ALL_CHANNELS_MASK,
    MAX_CHANNELS,
};
use voxel_storage::depth::ChannelDepth;
use voxel_storage::funcs::{get_3d_array_transform_origin, transform_3d_array_zxy};
use voxel_storage::math::{Axis, OrthoBasis, Vector3i};
use voxel_storage::metadata::MetadataValue;
use voxel_storage::voxel_buffer::{voxel_index, Channel, VoxelBuffer};
use voxel_storage::voxel_memory_pool::VoxelMemoryPool;

const TYPE: usize = 0;
const COLOR: usize = 2;

/// A buffer whose colours count up in ZXY order.
fn counting_buffer(size: Vector3i) -> VoxelBuffer {
    let mut buffer = VoxelBuffer::with_size(size);
    let mut value = 0;
    for z in 0..size.z {
        for x in 0..size.x {
            for y in 0..size.y {
                buffer.set_voxel(value, x, y, z, COLOR);
                value += 1;
            }
        }
    }
    buffer
}

/// The colours of a buffer in ZXY order.
fn colors(buffer: &VoxelBuffer) -> Vec<u64> {
    let size = buffer.size();
    let mut out = Vec::new();
    for z in 0..size.z {
        for x in 0..size.x {
            for y in 0..size.y {
                out.push(buffer.get_voxel(x, y, z, COLOR));
            }
        }
    }
    out
}

#[test]
fn set_voxels_read_back_as_far_as_the_depth_holds_them() {
    for (depth, read) in [
        (ChannelDepth::Bit8, 0x88),
        (ChannelDepth::Bit16, 0x7788),
        (ChannelDepth::Bit32, 0x5566_7788),
        (ChannelDepth::Bit64, 0x1122_3344_5566_7788),
    ] {
        let mut buffer = VoxelBuffer::with_size(Vector3i::new(2, 3, 4));
        buffer.set_channel_depth(COLOR, depth);
        buffer.set_voxel(0x1122_3344_5566_7788, 1, 2, 3, COLOR);
        assert_eq!(buffer.get_voxel(1, 2, 3, COLOR), read);
        assert_eq!(buffer.get_voxel(1, 2, 2, COLOR), 0);
        assert_eq!(buffer.channel_compression(COLOR + 1), Compression::Uniform);
    }
}

#[test]
fn a_filled_channel_keeps_a_value_that_its_depth_does_not_hold() {
    let mut buffer = VoxelBuffer::with_size(Vector3i::splat(2));
    buffer.fill(0x1_2345, COLOR);
    assert!(buffer.is_uniform(COLOR));
    assert_eq!(buffer.get_voxel(0, 0, 0, COLOR), 0x1_2345);
    assert_eq!(buffer.channel_default(COLOR), 0x1_2345);
    // Once the values are stored, only what the depth holds is left.
    buffer.decompress_channel(COLOR);
    assert_eq!(buffer.get_voxel(1, 1, 1, COLOR), 0x45);
    buffer.clear_channel(COLOR, 6);
    assert_eq!(buffer.channel_compression(COLOR), Compression::Uniform);
    assert_eq!(buffer.get_voxel(1, 1, 1, COLOR), 6);
}

#[test]
fn a_filled_area_has_its_corners_put_in_order_and_clipped() {
    let mut buffer = VoxelBuffer::with_size(Vector3i::splat(3));
    buffer.fill_area(9, Vector3i::new(5, 2, 3), Vector3i::new(1, -4, 1), COLOR);
    for z in 0..3 {
        for x in 0..3 {
            for y in 0..3 {
                let inside = x >= 1 && y < 2 && z >= 1;
                let value = if inside { 9 } else { 0 };
                assert_eq!(buffer.get_voxel(x, y, z, COLOR), value);
            }
        }
    }
    // An empty area leaves the channel as it is.
    let mut untouched = VoxelBuffer::with_size(Vector3i::splat(3));
    untouched.fill_area(9, Vector3i::new(1, 1, 1), Vector3i::new(1, 3, 3), COLOR);
    assert_eq!(untouched.channel_compression(COLOR), Compression::Uniform);
}

#[test]
fn compressing_undoes_decompressing() {
    let mut buffer = VoxelBuffer::with_size(Vector3i::splat(2));
    buffer.fill(7, COLOR);
    buffer.decompress_channel(COLOR);
    assert_eq!(buffer.channel_compression(COLOR), Compression::Dense);
    buffer.decompress_channel(COLOR);
    assert_eq!(buffer.get_voxel(1, 0, 1, COLOR), 7);
    buffer.compress_uniform_channels();
    assert_eq!(buffer.channel_compression(COLOR), Compression::Uniform);
    assert_eq!(buffer.channel_default(COLOR), 7);
    // A channel with different values stays as it is.
    buffer.set_voxel(8, 0, 1, 0, COLOR);
    buffer.compress_uniform_channels();
    assert!(!buffer.is_uniform(COLOR));
    assert_eq!(buffer.get_voxel(0, 1, 0, COLOR), 8);
    assert_eq!(buffer.get_voxel(0, 0, 0, COLOR), 7);
}

#[test]
fn mirroring_swaps_along_one_axis_and_is_undone_by_itself() {
    let size = Vector3i::new(2, 3, 4);
    let original = colors(&counting_buffer(size));
    for axis in 0..4 {
        let mut buffer = counting_buffer(size);
        buffer.mirror(COLOR, axis);
        for z in 0..size.z {
            for x in 0..size.x {
                for y in 0..size.y {
                    let from = match axis {
                        0 => Vector3i::new(size.x - 1 - x, y, z),
                        1 => Vector3i::new(x, size.y - 1 - y, z),
                        _ => Vector3i::new(x, y, size.z - 1 - z),
                    };
                    let index = voxel_index(
                        size,
                        from.x as usize,
                        from.y as usize,
                        from.z as usize,
                    );
                    assert_eq!(buffer.get_voxel(x, y, z, COLOR), index as u64);
                }
            }
        }
        buffer.mirror(COLOR, axis);
        assert_eq!(colors(&buffer), original);
    }
    let mut uniform = VoxelBuffer::with_size(size);
    uniform.mirror(COLOR, 0);
    assert_eq!(uniform.channel_compression(COLOR), Compression::Uniform);
}

#[test]
fn turning_moves_voxels_and_is_undone_by_turning_back() {
    let size = Vector3i::splat(3);
    // Where a turn takes the voxel at (0, 1, 2).
    let cases = [
        (0, true, Vector3i::new(0, 0, 1)),
        (0, false, Vector3i::new(0, 2, 1)),
        (1, true, Vector3i::new(0, 1, 0)),
        (1, false, Vector3i::new(2, 1, 2)),
        (2, true, Vector3i::new(1, 0, 2)),
        (2, false, Vector3i::new(1, 2, 2)),
    ];
    for (axis, clockwise, to) in cases {
        let mut buffer = counting_buffer(size);
        let original = colors(&buffer);
        let value = buffer.get_voxel(0, 1, 2, COLOR);
        buffer.rotate_90(COLOR, axis, clockwise);
        assert_eq!(buffer.get_voxel(to.x, to.y, to.z, COLOR), value);
        buffer.rotate_90(COLOR, axis, !clockwise);
        assert_eq!(colors(&buffer), original);
        for _ in 0..4 {
            buffer.rotate_90(COLOR, axis, clockwise);
        }
        assert_eq!(colors(&buffer), original);
    }
}

#[test]
fn one_turn_permutes_the_layers_and_leaves_other_channels() {
    let size = Vector3i::new(3, 3, 2);
    let mut buffer = counting_buffer(size);
    buffer.fill(5, TYPE);
    let original = counting_buffer(size);
    buffer.rotate_90(COLOR, 2, true);
    for z in 0..2 {
        for x in 0..3 {
            for y in 0..3 {
                assert_eq!(
                    buffer.get_voxel(2 - y, x, z, COLOR),
                    original.get_voxel(x, y, z, COLOR)
                );
                assert_eq!(buffer.get_voxel(x, y, z, TYPE), 5);
            }
        }
    }
    let mut turned = colors(&buffer);
    assert_ne!(turned, colors(&original));
    turned.sort();
    assert_eq!(turned, colors(&original));
}

#[test]
fn metadata_floats_compare_as_numbers() {
    let float = |value: f64| MetadataValue::Float(value.to_bits());
    assert_eq!(float(1.5), float(1.5));
    assert_ne!(float(1.5), float(-1.5));
    assert_eq!(float(0.0), float(-0.0));
    assert_ne!(float(0.0), float(f64::from_bits(1)));
    assert_eq!(float(f64::INFINITY), float(f64::INFINITY));
    assert_ne!(float(f64::INFINITY), float(f64::NEG_INFINITY));
    assert_ne!(float(f64::NAN), float(f64::NAN));
    assert_ne!(float(-f64::NAN), float(1.0));
    assert_ne!(float(0.0), MetadataValue::Int(0));
    assert_eq!(MetadataValue::Nil, MetadataValue::Nil);
    assert_ne!(MetadataValue::Int(1), MetadataValue::Int(2));
    assert_eq!(
        MetadataValue::Text("a".into()),
        MetadataValue::Text("a".into())
    );
    assert_ne!(
        MetadataValue::Text("a".into()),
        MetadataValue::Text("b".into())
    );
    assert_eq!(
        MetadataValue::Bytes(vec![1, 2]),
        MetadataValue::Bytes(vec![1, 2])
    );
    assert_ne!(
        MetadataValue::Bytes(vec![1, 2]),
        MetadataValue::Bytes(vec![1, 3])
    );
    assert_ne!(
        MetadataValue::Bytes(vec![1]),
        MetadataValue::Bytes(vec![1, 2])
    );
}

#[test]
fn a_new_extent_leaves_nothing_of_the_content_but_the_depths() {
    let mut buffer = counting_buffer(Vector3i::splat(2));
    buffer.set_channel_depth(ChannelId::Sdf.index(), ChannelDepth::Bit32);
    buffer.set_block_metadata(MetadataValue::Int(4));
    buffer.set_voxel_metadata(Vector3i::zero(), MetadataValue::Int(5));
    buffer.create(Vector3i::new(1, 2, 3));
    assert_eq!(buffer.size(), Vector3i::new(1, 2, 3));
    assert_eq!(colors(&buffer), vec![0; 6]);
    assert_eq!(
        buffer.channel_depth(ChannelId::Sdf.index()),
        ChannelDepth::Bit32
    );
    assert_eq!(
        buffer.get_voxel(0, 0, 0, ChannelId::Sdf.index()),
        0x42c8_0000
    );
    assert!(buffer.block_metadata().is_nil());
    assert!(!buffer.has_voxel_metadata());
}

#[test]
fn bytes_of_channels_are_the_values_in_little_endian_order() {
    let cases: [(ChannelDepth, Vec<u8>); 4] = [
        (ChannelDepth::Bit8, vec![0x08, 0x10]),
        (ChannelDepth::Bit16, vec![0x08, 0x07, 0x10, 0x0f]),
        (
            ChannelDepth::Bit32,
            vec![0x08, 0x07, 0x06, 0x05, 0x10, 0x0f, 0x0e, 0x0d],
        ),
        (
            ChannelDepth::Bit64,
            vec![
                0x08, 0x07, 0x06, 0x05, 0x04, 0x03, 0x02, 0x01, 0x10, 0x0f, 0x0e, 0x0d, 0x0c, 0x0b,
                0x0a, 0x09,
            ],
        ),
    ];
    for (depth, bytes) in cases {
        let mut buffer = VoxelBuffer::with_size(Vector3i::new(1, 2, 1));
        buffer.set_channel_depth(COLOR, depth);
        assert!(buffer.channel_bytes(COLOR).is_empty());
        buffer.set_voxel(0x0102_0304_0506_0708, 0, 0, 0, COLOR);
        buffer.set_voxel(0x090a_0b0c_0d0e_0f10, 0, 1, 0, COLOR);
        assert_eq!(buffer.channel_bytes(COLOR), &bytes[..]);

        let width = bytes.len() / 2;
        let written = buffer.channel_bytes_mut(COLOR);
        assert_eq!(written, &bytes[..]);
        written[width] = 0x77;
        written[2 * width - 1] = 0x66;
        let second = buffer.get_voxel(0, 1, 0, COLOR);
        assert_eq!(second >> (8 * (width - 1)), 0x66);
        if width > 1 {
            assert_eq!(second & 0xff, 0x77);
        }
        let mut expected = bytes.clone();
        expected[width] = 0x77;
        expected[2 * width - 1] = 0x66;
        assert_eq!(buffer.channel_bytes(COLOR), &expected[..]);
    }
}

#[test]
fn bytes_of_a_uniform_channel_are_stored_when_they_are_to_be_written() {
    let mut buffer = VoxelBuffer::with_size(Vector3i::new(1, 2, 1));
    buffer.set_channel_depth(COLOR, ChannelDepth::Bit16);
    buffer.fill(0x0304, COLOR);
    assert!(buffer.channel_data(COLOR).is_empty());
    assert_eq!(buffer.channel_bytes_mut(COLOR), &[4, 3, 4, 3]);
    assert_eq!(buffer.channel_compression(COLOR), Compression::Dense);
    assert_eq!(buffer.channel_data(COLOR).len(), 2);
    assert_eq!(buffer.channel_data(COLOR).depth(), ChannelDepth::Bit16);
}

#[test]
fn typed_values_are_written_truncated_and_read_extended() {
    for depth in [
        ChannelDepth::Bit8,
        ChannelDepth::Bit16,
        ChannelDepth::Bit32,
        ChannelDepth::Bit64,
    ] {
        let mut data = ChannelData::new_for_depth(depth, 3);
        assert_eq!(data.depth(), depth);
        assert_eq!(data.len(), 3);
        assert!(!data.is_empty());
        assert_eq!(data.get_u64(2), 0);
        data.fill_u64(5);
        data.set_u64(1, u64::MAX);
        assert_eq!(data.get_u64(0), 5);
        assert_eq!(data.get_u64(1), u64::MAX >> (64 - depth.bit_count()));
        assert_eq!(data.as_bytes().len(), 3 * depth.byte_count() as usize);
        data.as_bytes_mut()[0] = 6;
        assert_eq!(data.get_u64(0), 6);
        let copy = data.try_clone().unwrap();
        assert_eq!(copy.as_bytes(), data.as_bytes());
    }
    assert!(ChannelData::default().is_empty());
    assert_eq!(ChannelData::default().depth(), ChannelDepth::Bit8);
}

#[test]
fn channels_are_combined_voxel_by_voxel() {
    let mut a = counting_buffer(Vector3i::splat(2));
    let b = counting_buffer(Vector3i::splat(2));
    a.combine_channel(&b, COLOR, |x, y| x.max(3) + 40 * y);
    assert_eq!(colors(&a), vec![3, 43, 83, 123, 164, 205, 246, 31]);
    // Buffers of different extents are not combined.
    let other = counting_buffer(Vector3i::new(2, 2, 1));
    a.combine_channel(&other, COLOR, |_, _| 0);
    assert_eq!(a.get_voxel(0, 1, 0, COLOR), 43);
}

#[test]
fn pasted_voxels_and_metadata_move_together() {
    let mut dst = VoxelBuffer::with_size(Vector3i::splat(3));
    let mut src = counting_buffer(Vector3i::splat(2));
    src.set_voxel_metadata(Vector3i::new(1, 0, 1), MetadataValue::Text("in".into()));
    src.set_voxel_metadata(Vector3i::zero(), MetadataValue::Int(-3));
    dst.paste(
        &src,
        Vector3i::zero(),
        Vector3i::new(1, -1, 1),
        1 << COLOR,
    );
    // Only the upper layer of the source is inside.
    for z in 0..2 {
        for x in 0..2 {
            assert_eq!(
                dst.get_voxel(x + 1, 0, z + 1, COLOR),
                src.get_voxel(x, 1, z, COLOR)
            );
        }
    }
    assert_eq!(dst.get_voxel(0, 0, 1, COLOR), 0);
    assert_eq!(dst.get_voxel(1, 1, 1, COLOR), 0);
    assert!(!dst.has_voxel_metadata());
    dst.paste(
        &src,
        Vector3i::zero(),
        Vector3i::new(1, 0, 1),
        ALL_CHANNELS_MASK,
    );
    assert_eq!(
        dst.voxel_metadata(Vector3i::new(2, 0, 2)),
        Some(&MetadataValue::Text("in".into()))
    );
    assert_eq!(
        dst.voxel_metadata(Vector3i::new(1, 0, 1)),
        Some(&MetadataValue::Int(-3))
    );
}

#[test]
fn metadata_is_visited_once_each() {
    let mut buffer = VoxelBuffer::with_size(Vector3i::splat(4));
    let entries = [
        (Vector3i::new(0, 0, 0), MetadataValue::Int(1)),
        (Vector3i::new(3, 1, 2), MetadataValue::Float(0x3ff8_0000_0000_0000)),
        (Vector3i::new(1, 2, 3), MetadataValue::Bytes(vec![7, 8])),
    ];
    for (position, value) in &entries {
        buffer.set_voxel_metadata(*position, value.clone());
    }
    let mut all = buffer.for_each_voxel_metadata(|p, v| (p.x, p.y, p.z, v.clone().is_nil()));
    all.sort();
    assert_eq!(
        all,
        vec![(0, 0, 0, false), (1, 2, 3, false), (3, 1, 2, false)]
    );
    // The corners may come in any order; the far one is outside.
    let inside = buffer.for_each_voxel_metadata_in_area(
        Vector3i::new(4, 2, 3),
        Vector3i::new(1, 0, 0),
        |p, _| p,
    );
    assert_eq!(inside, vec![Vector3i::new(3, 1, 2)]);
    assert_eq!(
        buffer.next_voxel_metadata_pos_in_area(
            Vector3i::zero(),
            Vector3i::splat(4),
            Vector3i::zero()
        ),
        Some(Vector3i::new(3, 1, 2))
    );
    assert_eq!(
        buffer.next_voxel_metadata_pos_in_area(
            Vector3i::zero(),
            Vector3i::splat(4),
            Vector3i::new(1, 2, 3)
        ),
        None
    );
    buffer.clear_voxel_metadata(Vector3i::zero());
    assert_eq!(buffer.voxel_metadata(Vector3i::zero()), None);
    buffer.set_voxel_metadata(Vector3i::new(1, 2, 3), MetadataValue::Nil);
    assert_eq!(buffer.voxel_metadata(Vector3i::new(1, 2, 3)), None);
    assert!(buffer.has_voxel_metadata());
    buffer.set_block_metadata(MetadataValue::Int(9));
    buffer.clear_all_voxel_metadata();
    assert!(!buffer.has_voxel_metadata());
    assert_eq!(buffer.block_metadata(), &MetadataValue::Int(9));
}

#[test]
fn copies_keep_everything_but_the_allocator_of_the_destination() {
    let pool = Arc::new(VoxelMemoryPool::new());
    let mut src = VoxelBuffer::new(Allocator::Pool).with_pool(pool.clone());
    src.create(Vector3i::new(1, 2, 2));
    src.set_channel_depth(COLOR, ChannelDepth::Bit32);
    src.set_voxel(0xabcdef, 0, 1, 1, COLOR);
    src.set_voxel_metadata(Vector3i::new(0, 1, 1), MetadataValue::Int(2));
    assert_eq!(pool.used_blocks(), 0);
    let owned = src.copy_to_owned();
    assert_eq!(owned.allocator(), Allocator::Pool);
    assert_eq!(owned.get_voxel(0, 1, 1, COLOR), 0xabcdef);
    let mut dst = counting_buffer(Vector3i::splat(3));
    src.copy_to(&mut dst);
    assert_eq!(dst.allocator(), Allocator::Default);
    assert_eq!(dst.size(), Vector3i::new(1, 2, 2));
    assert_eq!(dst.channel_depth(COLOR), ChannelDepth::Bit32);
    assert_eq!(dst.channel_bytes(COLOR), src.channel_bytes(COLOR));
    assert_eq!(
        dst.voxel_metadata(Vector3i::new(0, 1, 1)),
        Some(&MetadataValue::Int(2))
    );
    assert_eq!(dst.channel_count(), MAX_CHANNELS);
}

#[test]
fn indices_sizes_and_defaults_have_their_values() {
    assert_eq!(voxel_index(Vector3i::new(2, 3, 4), 1, 2, 3), 23);
    assert_eq!(
        Channel::size_in_bytes_for_volume(Vector3i::new(2, 3, 4), ChannelDepth::Bit32),
        96
    );
    assert_eq!(get_default_sdf_raw_value(ChannelDepth::Bit8), 127);
    assert_eq!(get_default_sdf_raw_value(ChannelDepth::Bit16), 32767);
    assert_eq!(
        get_default_sdf_raw_value(ChannelDepth::Bit32),
        100.0f32.to_bits() as u64
    );
    assert_eq!(
        get_default_sdf_raw_value(ChannelDepth::Bit64),
        100.0f64.to_bits()
    );
    assert_eq!(get_default_indices_raw_value(ChannelDepth::Bit16), 0x3210);
    assert_eq!(
        get_default_raw_value(ChannelId::Weights, ChannelDepth::Bit16),
        0x000f
    );
    assert_eq!(
        get_default_raw_value(ChannelId::Data7, ChannelDepth::Bit8),
        0
    );
    for index in 0..MAX_CHANNELS {
        assert_eq!(channel_id_from_index(index).unwrap().index(), index);
    }
    assert_eq!(channel_id_from_index(MAX_CHANNELS), None);
}

#[test]
fn a_turned_array_has_every_element_at_its_new_place() {
    let basis = OrthoBasis {
        x: Vector3i::new(0, 0, -1),
        y: Vector3i::new(0, 1, 0),
        z: Vector3i::new(1, 0, 0),
    };
    let size = Vector3i::new(2, 1, 3);
    assert_eq!(
        get_3d_array_transform_origin(&basis, size),
        (Vector3i::new(0, 0, 1), Vector3i::new(3, 1, 2))
    );
    let src = [0, 1, 2, 3, 4, 5];
    let mut dst = [9; 6];
    let dst_size = transform_3d_array_zxy(&src, &mut dst, size, basis);
    assert_eq!(dst_size, Vector3i::new(3, 1, 2));
    assert_eq!(dst, [1, 3, 5, 0, 2, 4]);
}

#[test]
fn a_basis_that_takes_all_axes_to_others_keeps_cells_inside() {
    let basis = OrthoBasis {
        x: Vector3i::new(0, -1, 0),
        y: Vector3i::new(0, 0, 1),
        z: Vector3i::new(1, 0, 0),
    };
    let size = Vector3i::new(2, 1, 1);
    assert_eq!(
        get_3d_array_transform_origin(&basis, size),
        (Vector3i::new(0, 1, 0), Vector3i::new(1, 2, 1))
    );
    let mut dst = [0; 2];
    transform_3d_array_zxy(&[10, 11], &mut dst, size, basis);
    assert_eq!(dst, [11, 10]);
}

#[test]
fn four_quarter_turns_of_an_array_change_nothing() {
    let size = Vector3i::new(2, 3, 4);
    let src: Vec<u32> = (0..24).collect();
    for axis in [Axis::X, Axis::Y, Axis::Z] {
        let turn = OrthoBasis::from_axis_turns(axis, 1);
        let mut grid = src.clone();
        let mut extent = size;
        for _ in 0..4 {
            let mut next = vec![0; 24];
            extent = transform_3d_array_zxy(&grid, &mut next, extent, turn);
            let mut elements = next.clone();
            elements.sort();
            assert_eq!(elements, src);
            grid = next;
        }
        assert_eq!(extent, size);
        assert_eq!(grid, src);
    }
}

#[test]
fn pastes_start_at_the_source_corner() {
    let mut src = VoxelBuffer::with_size(Vector3i::splat(2));
    src.set_voxel(3, 1, 0, 0, TYPE);
    src.set_voxel_metadata(Vector3i::new(1, 0, 0), MetadataValue::Int(4));
    let mut dst = VoxelBuffer::with_size(Vector3i::splat(2));
    dst.set_voxel(8, 1, 0, 0, TYPE);
    dst.paste(&src, Vector3i::new(1, 0, 0), Vector3i::zero(), 1 << TYPE);
    assert_eq!(dst.get_voxel(0, 0, 0, TYPE), 3);
    assert_eq!(
        dst.voxel_metadata(Vector3i::zero()),
        Some(&MetadataValue::Int(4))
    );
    // Behind the source, the destination stays.
    assert_eq!(dst.get_voxel(1, 0, 0, TYPE), 8);

    let mut row = VoxelBuffer::with_size(Vector3i::new(3, 1, 1));
    row.set_voxel(5, 1, 0, 0, TYPE);
    row.set_voxel(7, 2, 0, 0, TYPE);
    let mut to = VoxelBuffer::with_size(Vector3i::new(3, 1, 1));
    to.paste(&row, Vector3i::new(1, 0, 0), Vector3i::new(2, 0, 0), 1 << TYPE);
    assert_eq!(to.get_voxel(2, 0, 0, TYPE), 5);
    assert_eq!(to.get_voxel(1, 0, 0, TYPE), 0);
    // A corner before the source leaves a gap.
    to.paste(&row, Vector3i::new(-1, 0, 0), Vector3i::new(-1, 0, 0), 1 << TYPE);
    assert_eq!(to.get_voxel(1, 0, 0, TYPE), 5);
    assert_eq!(to.get_voxel(2, 0, 0, TYPE), 7);
}
