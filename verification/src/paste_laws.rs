//! What pasting a buffer into a map of blocks, and copying one out of voxel data,
//! comes to, voxel by voxel.

use crate::buffer_model::BufferModel;
use crate::channel::MAX_CHANNELS;
use crate::depth;
use crate::funcs;
use crate::grid;
use crate::grid::Cell;
use crate::map_paste;
use crate::map_paste::PasteRules;
use crate::math::Vector3i;
use crate::voxel_data_block::BlockModel;
use crate::voxel_data_map;
use crate::voxel_data_map::{MapModel, BLOCK_SIZE};
use vstd::prelude::*;

verus! {

/// The masks let a paste write a voxel: the source voxel does not have the value
/// that is skipped, and the voxel that is there has one of the values that may be
/// written over. `seen` is the value of the mask channel there.
pub open spec fn masks_admit(
    rules: PasteRules,
    src: BufferModel,
    s: Cell,
    seen: spec_fn(int) -> u64,
) -> bool {
    &&& rules.src_mask matches Some(m) ==> src.value(m.0, s) != m.1
    &&& rules.dst_mask matches Some(m) ==> exists|k: int|
        0 <= k < m.1.len() && #[trigger] m.1[k] == seen(m.0)
}

/// A paste leaves alone every block that the pasted box does not meet, every
/// block without voxels unless blocks are to be made, and the state of all
/// blocks. Of a block that it reaches, channels that are not selected stay as
/// they are; in selected channels, voxels outside the pasted box and voxels that
/// a mask protects keep their values, and all others get that of the source, as
/// far as the depth holds it. A block that had no voxels starts with the defaults.
pub proof fn pastes_write_selected_voxels_only(
    m: MapModel,
    min_pos: Cell,
    src: BufferModel,
    rules: PasteRules,
    mask: u32,
    create: bool,
    p: Vector3i,
    i: int,
    cell: Cell,
)
    requires
        m.wf(),
        src.wf(),
        0 <= i < MAX_CHANNELS,
        cell.in_grid(Cell { x: 16, y: 16, z: 16 }),
        rules.src_mask matches Some(s) ==> 0 <= s.0 < MAX_CHANNELS,
        rules.dst_mask matches Some(s) ==> 0 <= s.0 < MAX_CHANNELS,
    ensures
        ({
            let after = map_paste::pasted_map(m, min_pos, src, rules, mask, create);
            let first = Cell { x: p.x * 16, y: p.y * 16, z: p.z * 16 };
            let s = first.plus(cell).minus(min_pos);
            let inside = 0 <= s.x < src.size.x && 0 <= s.y < src.size.y && 0 <= s.z < src.size.z;
            let met = {
                &&& 0 < src.size.x && 0 < src.size.y && 0 < src.size.z
                &&& first.x < min_pos.x + src.size.x && min_pos.x < first.x + 16
                &&& first.y < min_pos.y + src.size.y && min_pos.y < first.y + 16
                &&& first.z < min_pos.z + src.size.z && min_pos.z < first.z + 16
            };
            let reached = met && (create || m.has_voxels(p));
            let b = if m.has_voxels(p) {
                m.blocks[p].voxels->0
            } else {
                voxel_data_map::block_buffer(m.format)
            };
            let a = after.blocks[p].voxels->0;
            let depth = b.channels[i].depth;
            let seen = |c: int|
                if c == i {
                    depth.truncated(b.value(i, cell))
                } else {
                    b.value(c, cell)
                };
            &&& after.revisions == m.revisions && after.format == m.format && after.lod_index
                == m.lod_index
            &&& inside ==> met
            &&& !reached ==> after.blocks.get(p) == m.blocks.get(p)
            &&& reached ==> {
                &&& after.has_voxels(p)
                &&& after.blocks[p] == (BlockModel {
                    voxels: Some(a),
                    ..if m.has(p) {
                        m.blocks[p]
                    } else {
                        BlockModel::fresh(None, m.lod_index)
                    }
                })
                &&& a.size == b.size
                &&& a.voxel_metadata == b.voxel_metadata
                &&& a.block_metadata == b.block_metadata
                &&& a.channels[i].depth == depth
                &&& (mask >> (i as u32)) & 1 != 1 ==> a.channels[i] == b.channels[i]
                &&& (mask >> (i as u32)) & 1 == 1 ==> depth.truncated(a.value(i, cell))
                    == depth.truncated(
                    if inside && masks_admit(rules, src, s, seen) {
                        src.value(i, s)
                    } else {
                        b.value(i, cell)
                    },
                )
            }
        }),
{
    let after = map_paste::pasted_map(m, min_pos, src, rules, mask, create);
    let first = p@.times(BLOCK_SIZE as int);
    let offset = min_pos.minus(first);
    let s = first.plus(cell).minus(min_pos);
    voxel_data_map::lemma_block_buffer(m.format);
    let b = if m.has_voxels(p) {
        assert(m.blocks.contains_key(p));
        m.blocks[p].voxels->0
    } else {
        voxel_data_map::block_buffer(m.format)
    };
    assert(b.wf() && b.size == Cell::splat(BLOCK_SIZE as int));
    let ch = b.channels[i];
    let depth = ch.depth;
    assert(ch.wf(grid::volume(b.size)));
    grid::lemma_cell_at_zxy(b.size, cell);
    let seen = |c: int|
        if c == i {
            depth.truncated(b.value(i, cell))
        } else {
            b.value(c, cell)
        };
    let (lo, hi) = funcs::fill_extent(b.size, offset, offset.plus(src.size));
    assert(s == cell.minus(offset));
    match rules.dst_mask {
        Some(d) => {
            depth::truncation_is_idempotent(depth, ch.defval);
            assert(crate::voxel_buffer::read_value(b, i, d.0, grid::zxy(b.size, cell)) == seen(
                d.0,
            ));
            if d.1.contains(seen(d.0)) {
                let k = choose|k: int| 0 <= k < d.1.len() && d.1[k] == seen(d.0);
                assert(d.1[k] == seen(d.0));
            }
        },
        None => {},
    }
    assert(map_paste::paste_writes(b, src, offset, rules, i, cell) == masks_admit(
        rules,
        src,
        s,
        seen,
    ));
    depth::truncation_is_idempotent(depth, ch.defval);
    depth::truncation_is_idempotent(depth, src.value(i, s));
    depth::truncation_is_idempotent(depth, b.value(i, cell));
    let written = map_paste::pasted_channel(b, src, offset, rules, i);
    let inside = s.in_grid(src.size);
    assert(inside == (Cell::zero().le(src.size) && cell.within(lo, hi)
        && Cell::zero().lt(src.size)));
    if lo.lt(hi) {
        let dense = ch.made_dense(grid::volume(b.size));
        depth::truncation_is_idempotent(depth, dense.values[grid::zxy(b.size, cell)]);
    }
    if map_paste::paste_touches(min_pos, src.size, p) && (create || m.has_voxels(p)) {
        let a = after.blocks[p].voxels->0;
        assert(a == map_paste::pasted_buffer(b, src, offset, rules, mask));
    }
}

} // verus!
