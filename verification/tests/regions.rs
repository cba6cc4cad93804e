//! Copying, filling and turning regions of arrays.

use voxel_storage::funcs::{
    clip_copy_region, copy_3d_region_zxy, fill_3d_region_zxy, transform_3d_array_zxy,
};
use voxel_storage::math::{Axis, OrthoBasis, Vector3i};

#[test]
fn clip_copy_region_clamps_both_sides() {
    let mut src_min = Vector3i::new(-2, 0, 0);
    let mut src_max = Vector3i::new(10, 4, 4);
    let src_size = Vector3i::new(8, 4, 4);
    let mut dst_min = Vector3i::new(0, 0, 0);
    let dst_size = Vector3i::new(4, 4, 4);
    clip_copy_region(&mut src_min, &mut src_max, src_size, &mut dst_min, dst_size);
    // src clamped to [0,8), dst shifted by 2, then clamped to dst_size 4.
    assert!(src_min.x >= 0);
    assert!(src_max.x <= src_size.x);
    assert!(dst_min.x >= 0);
}

#[test]
fn copy_region_full_buffer() {
    let src = (0..64u8).collect::<Vec<_>>();
    let mut dst = vec![0u8; 64];
    let size = Vector3i::new(4, 4, 4);
    copy_3d_region_zxy(
        &mut dst,
        size,
        Vector3i::zero(),
        &src,
        size,
        Vector3i::zero(),
        size,
        1,
    );
    assert_eq!(dst, src);
}

#[test]
fn copy_region_subrect_with_item_size_4() {
    // 2x2x2 source of u32, copy a 1x1x1 corner.
    let size = Vector3i::new(2, 2, 2);
    let src: Vec<u32> = (0..8).collect();
    let src_bytes: Vec<u8> = src.iter().flat_map(|v| v.to_ne_bytes()).collect();
    let mut dst_bytes = vec![0u8; 8 * 4];
    copy_3d_region_zxy(
        &mut dst_bytes,
        size,
        Vector3i::new(1, 0, 0),
        &src_bytes,
        size,
        Vector3i::new(1, 0, 0),
        Vector3i::new(2, 1, 1),
        4,
    );
    let dst: Vec<u32> = dst_bytes
        .chunks_exact(4)
        .map(|b| u32::from_ne_bytes([b[0], b[1], b[2], b[3]]))
        .collect();
    // Position (1,0,0) in src has value 2 (zxy index: y=0 + sy*(x=1 + sx*z=0) = 0 + 2*(1+0)=2).
    assert_eq!(dst[2], src[2]);
}

#[test]
fn fill_region_full() {
    let mut buf = vec![0u32; 27];
    let size = Vector3i::new(3, 3, 3);
    fill_3d_region_zxy(&mut buf, size, Vector3i::zero(), size, 42u32);
    assert!(buf.iter().all(|&v| v == 42));
}

#[test]
fn fill_region_subrect() {
    let mut buf = vec![0u32; 27];
    let size = Vector3i::new(3, 3, 3);
    // Fill the cell at (1,1,1) only.
    fill_3d_region_zxy(
        &mut buf,
        size,
        Vector3i::new(1, 1, 1),
        Vector3i::new(2, 2, 2),
        7u32,
    );
    // zxy index of (1,1,1) = 1 + 3*(1 + 3*1) = 1 + 12 = 13.
    assert_eq!(buf[13], 7);
    let nonzero = buf.iter().filter(|&&v| v != 0).count();
    assert_eq!(nonzero, 1);
}

#[test]
fn transform_identity_returns_same() {
    let size = Vector3i::new(2, 3, 4);
    let src: Vec<u32> = (0..24).collect();
    let mut dst = vec![0u32; 24];
    let out_size = transform_3d_array_zxy(&src, &mut dst, size, OrthoBasis::default());
    assert_eq!(out_size, size);
    assert_eq!(dst, src);
}

#[test]
fn transform_preserves_volume() {
    let size = Vector3i::new(2, 2, 2);
    let src: Vec<u32> = (0..8).collect();
    let mut dst = vec![0u32; 8];
    // Rotate 90 around Z (cw): basis from the ortho table.
    let basis = OrthoBasis::from_axis_turns(Axis::Z, 1);
    let out_size = transform_3d_array_zxy(&src, &mut dst, size, basis);
    assert_eq!(out_size, size);
    // All elements present (a permutation).
    let mut sorted = dst.clone();
    sorted.sort();
    assert_eq!(sorted, src);
}
