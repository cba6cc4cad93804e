//! Voxel buffers.

use voxel_storage::channel::{
    Allocator, ChannelId, Compression, MAX_CHANNELS, MIXEL4_DEFAULT_INDICES,
    MIXEL4_DEFAULT_WEIGHTS,
};
use voxel_storage::depth::ChannelDepth;
use voxel_storage::math::Vector3i;
use voxel_storage::metadata::MetadataValue;
use voxel_storage::voxel_buffer::VoxelBuffer;

#[test]
fn create_sets_defaults() {
    let vb = VoxelBuffer::with_size(Vector3i::new(4, 4, 4));
    assert_eq!(vb.size(), Vector3i::new(4, 4, 4));
    // All channels uniform by default.
    for ci in 0..MAX_CHANNELS {
        assert_eq!(vb.channel_compression(ci), Compression::Uniform);
    }
    // Type channel at 16-bit, SDF at 16-bit, color at 8-bit.
    assert_eq!(
        vb.channel_depth(ChannelId::Type.index()),
        ChannelDepth::Bit16
    );
    assert_eq!(
        vb.channel_depth(ChannelId::Sdf.index()),
        ChannelDepth::Bit16
    );
    assert_eq!(
        vb.channel_depth(ChannelId::Color.index()),
        ChannelDepth::Bit8
    );
    assert_eq!(
        vb.channel_default(ChannelId::Indices.index()),
        0x3210,
        "C++ mixel4 default indices encode slots 0,1,2,3"
    );
    assert_eq!(
        vb.channel_default(ChannelId::Weights.index()),
        0x000f,
        "C++ mixel4 default weights encode full weight in slot 0"
    );
}

#[test]
fn new_initializes_channel_defaults_before_create() {
    let vb = VoxelBuffer::new(Allocator::Default);
    assert_eq!(vb.size(), Vector3i::zero());
    assert_eq!(
        vb.channel_depth(ChannelId::Type.index()),
        ChannelDepth::Bit16
    );
    assert_eq!(
        vb.channel_depth(ChannelId::Sdf.index()),
        ChannelDepth::Bit16
    );
    assert_eq!(
        vb.channel_default(ChannelId::Sdf.index()),
        32767
    );
    assert_eq!(
        vb.channel_default(ChannelId::Indices.index()),
        MIXEL4_DEFAULT_INDICES
    );
    assert_eq!(
        vb.channel_default(ChannelId::Weights.index()),
        MIXEL4_DEFAULT_WEIGHTS
    );
}

#[test]
fn create_preserves_existing_channel_depths() {
    let mut vb = VoxelBuffer::with_size(Vector3i::new(2, 2, 2));
    vb.set_channel_depth(ChannelId::Sdf.index(), ChannelDepth::Bit32);
    vb.set_channel_depth(ChannelId::Color.index(), ChannelDepth::Bit16);
    vb.set_voxel(
        u64::from((-0.25_f32).to_bits()),
        0,
        0,
        0,
        ChannelId::Sdf.index(),
    );

    vb.create(Vector3i::new(3, 3, 3));

    assert_eq!(vb.size(), Vector3i::new(3, 3, 3));
    assert_eq!(
        vb.channel_depth(ChannelId::Sdf.index()),
        ChannelDepth::Bit32
    );
    assert_eq!(
        vb.channel_depth(ChannelId::Color.index()),
        ChannelDepth::Bit16
    );
    assert_eq!(
        vb.channel_compression(ChannelId::Sdf.index()),
        Compression::Uniform
    );
    assert_eq!(
        vb.get_voxel(0, 0, 0, ChannelId::Sdf.index()),
        u64::from(100.0_f32.to_bits())
    );
}

#[test]
fn uniform_get_returns_default() {
    let vb = VoxelBuffer::with_size(Vector3i::new(2, 2, 2));
    // The SDF channel is 16-bit by default and starts at the largest positive
    // value, far outside.
    assert_eq!(vb.channel_default(ChannelId::Sdf.index()), 32767);
    assert_eq!(vb.get_voxel(0, 0, 0, ChannelId::Sdf.index()), 32767);
}

#[test]
fn set_voxel_decompresses() {
    let mut vb = VoxelBuffer::with_size(Vector3i::new(2, 2, 2));
    vb.set_voxel(42, 0, 0, 0, ChannelId::Type.index());
    assert_eq!(
        vb.channel_compression(ChannelId::Type.index()),
        Compression::Dense
    );
    assert_eq!(vb.get_voxel(0, 0, 0, ChannelId::Type.index()), 42);
    // Other voxels retain the (now-materialized) default of 0.
    assert_eq!(vb.get_voxel(1, 1, 1, ChannelId::Type.index()), 0);
}

#[test]
fn set_channel_depth_resets_materialized_channel_storage() {
    let mut vb = VoxelBuffer::with_size(Vector3i::new(2, 2, 2));
    vb.set_voxel(42, 0, 0, 0, ChannelId::Type.index());
    assert_eq!(
        vb.channel_compression(ChannelId::Type.index()),
        Compression::Dense
    );

    vb.set_channel_depth(ChannelId::Type.index(), ChannelDepth::Bit32);

    assert_eq!(
        vb.channel_compression(ChannelId::Type.index()),
        Compression::Uniform
    );
    assert!(vb.channel_bytes(ChannelId::Type.index()).is_empty());
    assert_eq!(
        vb.channel_depth(ChannelId::Type.index()),
        ChannelDepth::Bit32
    );
    vb.set_voxel(0x1122_3344, 1, 1, 1, ChannelId::Type.index());
    assert_eq!(vb.get_voxel(1, 1, 1, ChannelId::Type.index()), 0x1122_3344);
}

#[test]
fn fill_makes_uniform() {
    let mut vb = VoxelBuffer::with_size(Vector3i::new(4, 4, 4));
    vb.set_voxel(1, 0, 0, 0, ChannelId::Type.index()); // decompress
    vb.fill(7, ChannelId::Type.index());
    assert_eq!(
        vb.channel_compression(ChannelId::Type.index()),
        Compression::Uniform
    );
    assert_eq!(vb.channel_default(ChannelId::Type.index()), 7);
    assert_eq!(vb.get_voxel(2, 2, 2, ChannelId::Type.index()), 7);
}

#[test]
fn fill_area_writes_subregion() {
    let mut vb = VoxelBuffer::with_size(Vector3i::new(3, 3, 3));
    vb.fill_area(
        9,
        Vector3i::new(1, 1, 1),
        Vector3i::new(2, 2, 2),
        ChannelId::Type.index(),
    );
    assert_eq!(vb.get_voxel(1, 1, 1, ChannelId::Type.index()), 9);
    assert_eq!(vb.get_voxel(0, 0, 0, ChannelId::Type.index()), 0);
}

#[test]
fn is_uniform_after_uniform_fill() {
    let mut vb = VoxelBuffer::with_size(Vector3i::new(2, 2, 2));
    vb.set_voxel(5, 0, 0, 0, ChannelId::Type.index());
    assert!(!vb.is_uniform(ChannelId::Type.index()));
    vb.fill(5, ChannelId::Type.index());
    assert!(vb.is_uniform(ChannelId::Type.index()));
}

#[test]
fn compress_uniform_channels() {
    let mut vb = VoxelBuffer::with_size(Vector3i::new(2, 2, 2));
    // Materialize then fill uniformly.
    vb.set_voxel(3, 0, 0, 0, ChannelId::Type.index());
    vb.fill(3, ChannelId::Type.index());
    // After fill it's already uniform; materialize first to test compress.
    vb.decompress_channel(ChannelId::Type.index());
    assert_eq!(
        vb.channel_compression(ChannelId::Type.index()),
        Compression::Dense
    );
    vb.compress_uniform_channels();
    assert_eq!(
        vb.channel_compression(ChannelId::Type.index()),
        Compression::Uniform
    );
    assert_eq!(vb.channel_default(ChannelId::Type.index()), 3);
}

#[test]
fn copy_channel_from_clones() {
    let mut a = VoxelBuffer::with_size(Vector3i::new(2, 2, 2));
    a.set_voxel(11, 0, 0, 0, ChannelId::Type.index());
    let mut b = VoxelBuffer::with_size(Vector3i::new(2, 2, 2));
    b.copy_channel_from(&a, ChannelId::Type.index());
    assert_eq!(b.get_voxel(0, 0, 0, ChannelId::Type.index()), 11);
}

#[test]
fn copy_channel_from_area_copies_materialized_region() {
    let channel = ChannelId::Type.index();
    let mut src = VoxelBuffer::with_size(Vector3i::new(4, 4, 4));
    for z in 0..4 {
        for x in 0..4 {
            for y in 0..4 {
                src.set_voxel((1 + y + 10 * x + 100 * z) as u64, x, y, z, channel);
            }
        }
    }
    let mut dst = VoxelBuffer::with_size(Vector3i::new(4, 4, 4));
    dst.fill(999, channel);

    dst.copy_channel_from_area(
        &src,
        Vector3i::new(1, 1, 1),
        Vector3i::new(3, 3, 3),
        Vector3i::zero(),
        channel,
    );

    for z in 0..4 {
        for x in 0..4 {
            for y in 0..4 {
                let expected = if x < 2 && y < 2 && z < 2 {
                    src.get_voxel(x + 1, y + 1, z + 1, channel)
                } else {
                    999
                };
                assert_eq!(dst.get_voxel(x, y, z, channel), expected);
            }
        }
    }
}

#[test]
fn copy_channel_from_area_uniform_source_overwrites_materialized_region() {
    let channel = ChannelId::Type.index();
    let src = VoxelBuffer::with_size(Vector3i::new(4, 4, 4));
    let mut dst = VoxelBuffer::with_size(Vector3i::new(4, 4, 4));
    dst.set_voxel(42, 1, 1, 1, channel);
    dst.set_voxel(43, 2, 2, 2, channel);

    dst.copy_channel_from_area(
        &src,
        Vector3i::zero(),
        Vector3i::new(2, 2, 2),
        Vector3i::new(1, 1, 1),
        channel,
    );

    assert_eq!(dst.get_voxel(1, 1, 1, channel), 0);
    assert_eq!(dst.get_voxel(2, 2, 2, channel), 0);
}

#[test]
fn voxel_metadata_round_trips_and_clears() {
    let mut buf = VoxelBuffer::with_size(Vector3i::new(4, 4, 4));
    buf.set_block_metadata(MetadataValue::Text("chunk".into()));
    buf.set_voxel_metadata(Vector3i::new(1, 2, 3), MetadataValue::Int(42));
    buf.set_voxel_metadata(Vector3i::new(0, 0, 1), MetadataValue::Float(1.5_f64.to_bits()));
    assert_eq!(buf.block_metadata(), &MetadataValue::Text("chunk".into()));
    assert_eq!(
        buf.voxel_metadata(Vector3i::new(1, 2, 3)),
        Some(&MetadataValue::Int(42))
    );
    buf.set_voxel_metadata(Vector3i::new(1, 2, 3), MetadataValue::Nil);
    assert!(buf.voxel_metadata(Vector3i::new(1, 2, 3)).is_none());
    assert!(buf.has_voxel_metadata());
    buf.clear_all_voxel_metadata();
    assert!(!buf.has_voxel_metadata());
    assert_eq!(buf.block_metadata(), &MetadataValue::Text("chunk".into()));
}

#[test]
fn metadata_survives_copy_to_and_is_cleared_by_create() {
    let mut src = VoxelBuffer::with_size(Vector3i::new(2, 2, 2));
    src.set_block_metadata(MetadataValue::Int(7));
    src.set_voxel_metadata(Vector3i::new(1, 0, 0), MetadataValue::Bytes(vec![1, 2]));
    let dst = src.copy_to_owned();
    assert_eq!(dst.block_metadata(), &MetadataValue::Int(7));
    assert_eq!(
        dst.voxel_metadata(Vector3i::new(1, 0, 0)),
        Some(&MetadataValue::Bytes(vec![1, 2]))
    );
    src.create(Vector3i::new(2, 2, 2));
    assert!(src.block_metadata().is_nil());
    assert!(!src.has_voxel_metadata());
}

#[test]
fn paste_copies_overlapping_voxel_metadata() {
    let mut src = VoxelBuffer::with_size(Vector3i::new(2, 2, 2));
    src.set_voxel(3, 0, 0, 0, ChannelId::Type.index());
    src.set_voxel_metadata(Vector3i::new(0, 0, 0), MetadataValue::Int(11));
    src.set_voxel_metadata(Vector3i::new(1, 1, 1), MetadataValue::Int(22));
    let mut dst = VoxelBuffer::with_size(Vector3i::new(4, 4, 4));
    dst.paste(
        &src,
        Vector3i::zero(),
        Vector3i::new(1, 1, 1),
        1 << ChannelId::Type.index(),
    );
    assert_eq!(
        dst.voxel_metadata(Vector3i::new(1, 1, 1)),
        Some(&MetadataValue::Int(11))
    );
    assert_eq!(
        dst.voxel_metadata(Vector3i::new(2, 2, 2)),
        Some(&MetadataValue::Int(22))
    );
    assert!(dst.voxel_metadata(Vector3i::zero()).is_none());
}

#[test]
fn next_voxel_metadata_pos_walks_zxy_after_start() {
    let mut buf = VoxelBuffer::with_size(Vector3i::new(4, 4, 4));
    buf.set_voxel_metadata(Vector3i::new(1, 0, 0), MetadataValue::Int(1));
    buf.set_voxel_metadata(Vector3i::new(0, 1, 0), MetadataValue::Int(2));
    buf.set_voxel_metadata(Vector3i::new(0, 0, 1), MetadataValue::Int(3));
    let min = Vector3i::zero();
    let max = Vector3i::splat(4);
    let first = buf
        .next_voxel_metadata_pos_in_area(min, max, Vector3i::new(i32::MIN, i32::MIN, i32::MIN))
        .expect("first");
    let second = buf
        .next_voxel_metadata_pos_in_area(min, max, first)
        .expect("second");
    let third = buf
        .next_voxel_metadata_pos_in_area(min, max, second)
        .expect("third");
    assert!(buf
        .next_voxel_metadata_pos_in_area(min, max, third)
        .is_none());
    assert_eq!(first, Vector3i::new(0, 1, 0));
    assert_eq!(second, Vector3i::new(1, 0, 0));
    assert_eq!(third, Vector3i::new(0, 0, 1));
}

#[test]
fn depth_byte_count() {
    assert_eq!(ChannelDepth::Bit8.byte_count(), 1);
    assert_eq!(ChannelDepth::Bit16.byte_count(), 2);
    assert_eq!(ChannelDepth::Bit32.byte_count(), 4);
    assert_eq!(ChannelDepth::Bit64.byte_count(), 8);
}

#[test]
fn channel_id_names() {
    assert_eq!(ChannelId::Type.name(), "type");
    assert_eq!(ChannelId::Sdf.name(), "sdf");
    assert_eq!(ChannelId::Data7.name(), "data7");
}

#[test]
fn downscale_to_samples_nearest_neighbor_2_to_1() {
    // Build a 4×4×4 source where each voxel carries its ZXY index in the
    // Type channel, so we can verify exactly which source voxel each dst
    // cell sampled.
    let channel = ChannelId::Type.index();
    let mut src = VoxelBuffer::with_size(Vector3i::splat(4));
    for z in 0..4 {
        for x in 0..4 {
            for y in 0..4 {
                let v = (z * 16 + x * 4 + y) as u64;
                src.set_voxel(v, x, y, z, channel);
            }
        }
    }

    let mut dst = VoxelBuffer::with_size(Vector3i::splat(2));
    src.downscale_to(
        &mut dst,
        Vector3i::zero(),
        Vector3i::splat(4),
        Vector3i::zero(),
    );

    for z in 0..2 {
        for x in 0..2 {
            for y in 0..2 {
                let expected = ((z * 2) * 16 + (x * 2) * 4 + (y * 2)) as u64;
                assert_eq!(dst.get_voxel(x, y, z, channel), expected);
            }
        }
    }
}

#[test]
fn downscale_to_skips_uniform_channels_with_matching_default() {
    let channel = ChannelId::Type.index();
    let mut src = VoxelBuffer::with_size(Vector3i::splat(4));
    src.fill(7, channel);
    // SDF stays at its default far-outside sentinel on both ends.

    let mut dst = VoxelBuffer::with_size(Vector3i::splat(2));
    src.downscale_to(
        &mut dst,
        Vector3i::zero(),
        Vector3i::splat(4),
        Vector3i::zero(),
    );

    // Type channel was uniform-7, dst was uniform-0 → materialized to 7.
    assert_eq!(dst.get_voxel(0, 0, 0, channel), 7);
    // SDF channel was uniform on both ends with equal defaults → untouched,
    // stays uniform (no allocation).
    assert_eq!(
        dst.channel_compression(ChannelId::Sdf.index()),
        Compression::Uniform
    );
}

#[test]
fn downscale_to_clamps_oversized_source_region_into_dst_bounds() {
    // Source region extends past the source buffer; the implementation
    // clamps it to the available 4³ region before sampling. The dst min
    // stays at the origin so the whole dst buffer is filled.
    let channel = ChannelId::Type.index();
    let mut src = VoxelBuffer::with_size(Vector3i::splat(4));
    src.fill(3, channel);
    let mut dst = VoxelBuffer::with_size(Vector3i::splat(2));

    src.downscale_to(
        &mut dst,
        Vector3i::zero(),
        Vector3i::splat(99),
        Vector3i::zero(),
    );

    for z in 0..2 {
        for x in 0..2 {
            for y in 0..2 {
                assert_eq!(dst.get_voxel(x, y, z, channel), 3);
            }
        }
    }
}

#[test]
fn downscale_to_into_destination_subregion_uses_offset_mapping() {
    // Writing into a non-zero dst_min still maps back to the correct
    // source voxel via `src_min + ((dst_pos - dst_min) << 1)`.
    let channel = ChannelId::Type.index();
    let mut src = VoxelBuffer::with_size(Vector3i::splat(4));
    src.fill(5, channel);
    // Materialize a single marker voxel.
    src.set_voxel(42, 2, 0, 0, channel);

    let mut dst = VoxelBuffer::with_size(Vector3i::splat(4));
    // Downscale the 4³ source into the (1..3)³ region of an 4³ dst buffer.
    src.downscale_to(
        &mut dst,
        Vector3i::zero(),
        Vector3i::splat(4),
        Vector3i::new(1, 1, 1),
    );

    // dst(1,1,1) samples src(0,0,0) = 5; dst(2,*,*) samples src(2,*,*) so
    // dst(2,1,1) = src(2,0,0) = 42.
    assert_eq!(dst.get_voxel(1, 1, 1, channel), 5);
    assert_eq!(dst.get_voxel(2, 1, 1, channel), 42);
}
