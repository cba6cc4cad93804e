//! Pasting a buffer of voxels into a map of blocks.

use crate::boxes::Box3i;
use crate::buffer_model::{BufferModel, ChannelModel};
use crate::channel::MAX_CHANNELS;
use crate::collections;
use crate::funcs;
use crate::grid;
use crate::grid::Cell;
use crate::math::Vector3i;
use crate::voxel_buffer;
use crate::voxel_buffer::VoxelBuffer;
use crate::voxel_data_block::BlockModel;
use crate::voxel_data_map;
use crate::voxel_data_map::{MapModel, VoxelDataMap, BLOCK_SIZE};
use crate::voxel_format::VoxelFormat;
use vstd::prelude::*;

verus! {

/// Which voxels a paste writes. A source voxel whose mask channel has the mask
/// value is skipped; so is a destination voxel whose mask channel has a value
/// that is not listed as writable.
pub struct PasteRules {
    pub src_mask: Option<(int, u64)>,
    pub dst_mask: Option<(int, Seq<u64>)>,
}

/// Channel `i` is selected by `mask`.
pub open spec fn in_channels(mask: u32, i: int) -> bool {
    (mask >> (i as u32)) & 1 == 1
}

/// A paste of `src`, placed at `offset`, writes channel `ci` of voxel `c`.
pub open spec fn paste_writes(
    before: BufferModel,
    src: BufferModel,
    offset: Cell,
    rules: PasteRules,
    ci: int,
    c: Cell,
) -> bool {
    &&& rules.src_mask matches Some(m) ==> src.value(m.0, c.minus(offset)) != m.1
    &&& rules.dst_mask matches Some(m) ==> m.1.contains(
        voxel_buffer::read_value(before, ci, m.0, grid::zxy(before.size, c)),
    )
}

/// Channel `ci` of a buffer after `src` has been pasted at `offset`.
pub open spec fn pasted_channel(
    before: BufferModel,
    src: BufferModel,
    offset: Cell,
    rules: PasteRules,
    ci: int,
) -> ChannelModel {
    let (lo, hi) = funcs::fill_extent(before.size, offset, offset.plus(src.size));
    let dense = before.channels[ci].made_dense(grid::volume(before.size));
    if !lo.lt(hi) {
        before.channels[ci]
    } else {
        dense.with_values(
            grid::region_write(
                dense.values,
                before.size,
                lo,
                hi,
                |c: Cell|
                    dense.depth.truncated(
                        if paste_writes(before, src, offset, rules, ci, c) {
                            src.value(ci, c.minus(offset))
                        } else {
                            dense.values[grid::zxy(before.size, c)]
                        },
                    ),
            ),
        )
    }
}

/// A buffer after the selected channels of `src` have been pasted at `offset`.
pub open spec fn pasted_buffer(
    before: BufferModel,
    src: BufferModel,
    offset: Cell,
    rules: PasteRules,
    mask: u32,
) -> BufferModel {
    BufferModel {
        channels: Seq::new(
            before.channels.len(),
            |i: int|
                if in_channels(mask, i) {
                    pasted_channel(before, src, offset, rules, i)
                } else {
                    before.channels[i]
                },
        ),
        ..before
    }
}

/// The blocks that a paste at `min_pos` touches: a box of block positions.
pub open spec fn paste_blocks(min_pos: Cell, src_size: Cell) -> (Cell, Cell) {
    (
        min_pos.over(BLOCK_SIZE as int),
        min_pos.plus(src_size).plus(Cell::splat(BLOCK_SIZE - 1)).over(BLOCK_SIZE as int),
    )
}

/// The block at `p` is touched by a paste.
pub open spec fn paste_touches(min_pos: Cell, src_size: Cell, p: Vector3i) -> bool {
    Cell::zero().lt(src_size) && p@.within(
        paste_blocks(min_pos, src_size).0,
        paste_blocks(min_pos, src_size).1,
    )
}

/// The block at `p` after a paste: its voxels, or new ones where blocks are
/// made, with `src` pasted into them.
pub open spec fn pasted_block(
    m: MapModel,
    min_pos: Cell,
    src: BufferModel,
    rules: PasteRules,
    mask: u32,
    p: Vector3i,
) -> BlockModel {
    let voxels = if m.has_voxels(p) {
        m.blocks[p].voxels->0
    } else {
        voxel_data_map::block_buffer(m.format)
    };
    let offset = min_pos.minus(p@.times(BLOCK_SIZE as int));
    let b = pasted_buffer(voxels, src, offset, rules, mask);
    if m.has(p) {
        BlockModel { voxels: Some(b), ..m.blocks[p] }
    } else {
        BlockModel::fresh(Some(b), m.lod_index)
    }
}

/// A map after a paste.
pub open spec fn pasted_map(
    m: MapModel,
    min_pos: Cell,
    src: BufferModel,
    rules: PasteRules,
    mask: u32,
    create: bool,
) -> MapModel {
    let written = |p: Vector3i|
        paste_touches(min_pos, src.size, p) && (create || m.has_voxels(p));
    MapModel {
        blocks: Map::new(
            |p: Vector3i| m.has(p) || written(p),
            |p: Vector3i|
                if written(p) {
                    pasted_block(m, min_pos, src, rules, mask, p)
                } else {
                    m.blocks[p]
                },
        ),
        ..m
    }
}

/// `value` is among `values`.
fn listed(values: &[u64], value: u64) -> (b: bool)
    ensures
        b == values@.contains(value),
{
    let mut i: usize = 0;
    while i < values.len()
        invariant
            i <= values@.len(),
            forall|k: int| 0 <= k < i ==> values@[k] != value,
        decreases values@.len() - i,
    {
        if values[i] == value {
            return true;
        }
        i = i + 1;
    }
    false
}

/// The rules that the optional masks stand for.
pub open spec fn rules_of(
    src_mask: Option<(usize, u64)>,
    dst_mask: Option<(usize, &[u64])>,
) -> PasteRules {
    PasteRules {
        src_mask: match src_mask {
            Some(m) => Some((m.0 as int, m.1)),
            None => None,
        },
        dst_mask: match dst_mask {
            Some(m) => Some((m.0 as int, m.1@)),
            None => None,
        },
    }
}

/// Pastes one channel of `src`, placed at `offset`. The destination mask is
/// read from the buffer as it is now.
fn paste_channel(
    dst: &mut VoxelBuffer,
    src: &VoxelBuffer,
    offset: Vector3i,
    end: Vector3i,
    ci: usize,
    src_mask: Option<(usize, u64)>,
    dst_mask: Option<(usize, &[u64])>,
)
    requires
        old(dst).wf(),
        src.wf(),
        ci < MAX_CHANNELS,
        end@ == offset@.plus(src@.size),
        src_mask matches Some(m) ==> m.0 < MAX_CHANNELS,
        dst_mask matches Some(m) ==> m.0 < MAX_CHANNELS,
    ensures
        final(dst).wf(),
        final(dst)@ == old(dst)@.with_channel(
            ci as int,
            pasted_channel(old(dst)@, src@, offset@, rules_of(src_mask, dst_mask), ci as int),
        ),
{
    let ghost before = dst@;
    let ghost rules = rules_of(src_mask, dst_mask);
    let ghost c = ci as int;
    let size = dst.size();
    let rc: usize = match dst_mask {
        Some(m) => m.0,
        None => ci,
    };
    let (dst_masked, writable): (bool, &[u64]) = match dst_mask {
        Some(m) => (true, m.1),
        None => (false, &[]),
    };
    proof {
        dst.lemma_wf();
        assert(before.channels[c].wf(grid::volume(before.size)));
        src.lemma_wf();
    }
    let write = |pos: Vector3i, current: u64, mask_value: u64| -> (r: u64)
        requires
            pos@.within(
                funcs::fill_extent(size@, offset@, end@).0,
                funcs::fill_extent(size@, offset@, end@).1,
            ),
        ensures
            r == if (src_mask matches Some(m) ==> src@.value(m.0 as int, pos@.minus(offset@)) != m.1)
                && (dst_masked ==> writable@.contains(mask_value)) {
                src@.value(ci as int, pos@.minus(offset@))
            } else {
                current
            },
        {
            let s = pos.minus(offset);
            let skipped = match src_mask {
                Some(m) => src.get_voxel(s.x, s.y, s.z, m.0) == m.1,
                None => false,
            };
            if skipped || dst_masked && !listed(writable, mask_value) {
                current
            } else {
                src.get_voxel(s.x, s.y, s.z, ci)
            }
        };
    dst.read_write_area_with_channel(offset, end, ci, rc, write);
    proof {
        let depth = before.channels[c].depth;
        let dense = voxel_buffer::dense_values(before, c);
        let wrote = |p: Vector3i, i: int, new: u64|
            exists|r: u64|
                #[trigger] call_ensures(
                    write,
                    (p, dense[i], voxel_buffer::read_value(before, c, rc as int, i)),
                    r,
                ) && new == depth.truncated(r);
        let f = |p: Cell|
            depth.truncated(
                if paste_writes(before, src@, offset@, rules, c, p) {
                    src@.value(c, p.minus(offset@))
                } else {
                    dense[grid::zxy(before.size, p)]
                },
            );
        voxel_buffer::lemma_area_rewritten(before, dst@, c, offset@, end@, wrote, f);
        assert(dst@ =~= before.with_channel(
            c,
            pasted_channel(before, src@, offset@, rules, c),
        ));
    }
}

/// Pastes the selected channels of `src`, placed at `offset`. The channel of
/// the destination mask comes last, so that every channel goes by its values
/// from before the paste.
fn paste_buffer(
    dst: &mut VoxelBuffer,
    src: &VoxelBuffer,
    offset: Vector3i,
    end: Vector3i,
    channels_mask: u32,
    src_mask: Option<(usize, u64)>,
    dst_mask: Option<(usize, &[u64])>,
)
    requires
        old(dst).wf(),
        src.wf(),
        end@ == offset@.plus(src@.size),
        src_mask matches Some(m) ==> m.0 < MAX_CHANNELS,
        dst_mask matches Some(m) ==> m.0 < MAX_CHANNELS,
    ensures
        final(dst).wf(),
        final(dst)@ == pasted_buffer(
            old(dst)@,
            src@,
            offset@,
            rules_of(src_mask, dst_mask),
            channels_mask,
        ),
{
    let ghost before = dst@;
    let ghost rules = rules_of(src_mask, dst_mask);
    let ghost after = pasted_buffer(before, src@, offset@, rules, channels_mask);
    let last: usize = match dst_mask {
        Some(m) => m.0,
        None => MAX_CHANNELS,
    };
    proof {
        dst.lemma_wf();
    }
    let mut ci: usize = 0;
    while ci < MAX_CHANNELS
        invariant
            ci <= MAX_CHANNELS,
            dst.wf(),
            src.wf(),
            end@ == offset@.plus(src@.size),
            src_mask matches Some(m) ==> m.0 < MAX_CHANNELS,
            dst_mask matches Some(m) ==> m.0 < MAX_CHANNELS && last == m.0,
            dst_mask is None ==> last == MAX_CHANNELS,
            rules == rules_of(src_mask, dst_mask),
            after == pasted_buffer(before, src@, offset@, rules, channels_mask),
            before.channels.len() == MAX_CHANNELS,
            dst@ == (BufferModel { channels: dst@.channels, ..before }),
            dst@.channels.len() == MAX_CHANNELS,
            forall|k: int|
                0 <= k < MAX_CHANNELS ==> #[trigger] dst@.channels[k] == if k < ci && k != last {
                    after.channels[k]
                } else {
                    before.channels[k]
                },
        decreases MAX_CHANNELS - ci,
    {
        if (channels_mask >> (ci as u32)) & 1 == 1 && ci != last {
            proof {
                lemma_channel_alone(before, dst@, src@, offset@, rules, ci as int);
            }
            paste_channel(dst, src, offset, end, ci, src_mask, dst_mask);
        }
        ci = ci + 1;
    }
    if last < MAX_CHANNELS && (channels_mask >> (last as u32)) & 1 == 1 {
        proof {
            lemma_channel_alone(before, dst@, src@, offset@, rules, last as int);
        }
        paste_channel(dst, src, offset, end, last, src_mask, dst_mask);
    }
    assert(dst@ =~= after);
}

/// A paste of channel `ci` only depends on that channel and on the channel of
/// the destination mask.
proof fn lemma_channel_alone(
    before: BufferModel,
    now: BufferModel,
    src: BufferModel,
    offset: Cell,
    rules: PasteRules,
    ci: int,
)
    requires
        now.size == before.size,
        now.channels[ci] == before.channels[ci],
        rules.dst_mask matches Some(m) ==> now.channels[m.0] == before.channels[m.0],
    ensures
        pasted_channel(now, src, offset, rules, ci) == pasted_channel(
            before,
            src,
            offset,
            rules,
            ci,
        ),
{
    let (lo, hi) = funcs::fill_extent(before.size, offset, offset.plus(src.size));
    let a = pasted_channel(now, src, offset, rules, ci).values;
    let b = pasted_channel(before, src, offset, rules, ci).values;
    if lo.lt(hi) {
        assert forall|c: Cell| #[trigger] paste_writes(now, src, offset, rules, ci, c)
            == paste_writes(before, src, offset, rules, ci, c) by {
        }
        assert(a =~= b);
    }
}

impl VoxelDataMap {
    /// Pastes the selected channels of `src_buffer` at `min_pos`. Missing
    /// blocks and blocks without voxels get new voxels if
    /// `create_new_blocks` says so, and are skipped otherwise.
    pub fn paste(
        &mut self,
        min_pos: Vector3i,
        src_buffer: &VoxelBuffer,
        channels_mask: u32,
        create_new_blocks: bool,
    )
        requires
            old(self).wf(),
            src_buffer.wf(),
            min_pos@.plus(src_buffer@.size).fits(),
        ensures
            final(self).wf(),
            final(self)@ == pasted_map(
                old(self)@,
                min_pos@,
                src_buffer@,
                (PasteRules { src_mask: None, dst_mask: None }),
                channels_mask,
                create_new_blocks,
            ),
    {
        self.paste_with_rules(min_pos, src_buffer, channels_mask, None, None, create_new_blocks);
    }

    /// Like `paste`; source voxels whose mask channel has the mask value are
    /// skipped.
    pub fn paste_masked(
        &mut self,
        min_pos: Vector3i,
        src_buffer: &VoxelBuffer,
        channels_mask: u32,
        src_mask_channel: usize,
        src_mask_value: u64,
        create_new_blocks: bool,
    )
        requires
            old(self).wf(),
            src_buffer.wf(),
            min_pos@.plus(src_buffer@.size).fits(),
            src_mask_channel < MAX_CHANNELS,
        ensures
            final(self).wf(),
            final(self)@ == pasted_map(
                old(self)@,
                min_pos@,
                src_buffer@,
                (PasteRules {
                    src_mask: Some((src_mask_channel as int, src_mask_value)),
                    dst_mask: None,
                }),
                channels_mask,
                create_new_blocks,
            ),
    {
        self.paste_with_rules(
            min_pos,
            src_buffer,
            channels_mask,
            Some((src_mask_channel, src_mask_value)),
            None,
            create_new_blocks,
        );
    }

    /// Like `paste_masked`; destination voxels whose mask channel has a value
    /// that is not listed as writable are skipped as well.
    pub fn paste_masked_with_destination_mask(
        &mut self,
        min_pos: Vector3i,
        src_buffer: &VoxelBuffer,
        channels_mask: u32,
        src_mask_channel: usize,
        src_mask_value: u64,
        dst_mask_channel: usize,
        dst_writable_values: &[u64],
        create_new_blocks: bool,
    )
        requires
            old(self).wf(),
            src_buffer.wf(),
            min_pos@.plus(src_buffer@.size).fits(),
            src_mask_channel < MAX_CHANNELS,
            dst_mask_channel < MAX_CHANNELS,
        ensures
            final(self).wf(),
            final(self)@ == pasted_map(
                old(self)@,
                min_pos@,
                src_buffer@,
                (PasteRules {
                    src_mask: Some((src_mask_channel as int, src_mask_value)),
                    dst_mask: Some((dst_mask_channel as int, dst_writable_values@)),
                }),
                channels_mask,
                create_new_blocks,
            ),
    {
        self.paste_with_rules(
            min_pos,
            src_buffer,
            channels_mask,
            Some((src_mask_channel, src_mask_value)),
            Some((dst_mask_channel, dst_writable_values)),
            create_new_blocks,
        );
    }

    fn paste_with_rules(
        &mut self,
        min_pos: Vector3i,
        src: &VoxelBuffer,
        channels_mask: u32,
        src_mask: Option<(usize, u64)>,
        dst_mask: Option<(usize, &[u64])>,
        create: bool,
    )
        requires
            old(self).wf(),
            src.wf(),
            min_pos@.plus(src@.size).fits(),
            src_mask matches Some(m) ==> m.0 < MAX_CHANNELS,
            dst_mask matches Some(m) ==> m.0 < MAX_CHANNELS,
        ensures
            final(self).wf(),
            final(self)@ == pasted_map(
                old(self)@,
                min_pos@,
                src@,
                rules_of(src_mask, dst_mask),
                channels_mask,
                create,
            ),
    {
        let ghost before = self@;
        let ghost rules = rules_of(src_mask, dst_mask);
        let size = src.size();
        let area = Box3i::new(min_pos, size);
        proof {
            src.lemma_wf();
            self.lemma_wf();
        }
        if area.is_empty() {
            assert(self@.blocks =~= pasted_map(
                before,
                min_pos@,
                src@,
                rules,
                channels_mask,
                create,
            ).blocks);
            return;
        }
        let blocks = area.downscaled(BLOCK_SIZE);
        let n: u128 = blocks.cell_count();
        let mut i: u128 = 0;
        proof {
            blocks.lemma_cells();
            assert(pasted_until(
                before,
                self@,
                min_pos@,
                src@,
                rules,
                channels_mask,
                create,
                blocks.cells(),
                0,
            ));
        }
        while i < n
            invariant
                i <= n,
                n == blocks.cells().len(),
                blocks.representable(),
                blocks.cells().no_duplicates(),
                blocks.position@ == paste_blocks(min_pos@, src@.size).0,
                blocks.end() == paste_blocks(min_pos@, src@.size).1,
                self.wf(),
                src.wf(),
                size@ == src@.size,
                Cell::zero().lt(size@),
                size@.le(Cell::splat(65535)),
                min_pos@.plus(src@.size).fits(),
                before.format.len() == 8,
                src_mask matches Some(m) ==> m.0 < MAX_CHANNELS,
                dst_mask matches Some(m) ==> m.0 < MAX_CHANNELS,
                rules == rules_of(src_mask, dst_mask),
                pasted_until(
                    before,
                    self@,
                    min_pos@,
                    src@,
                    rules,
                    channels_mask,
                    create,
                    blocks.cells(),
                    i as int,
                ),
            decreases n - i,
        {
            let p = blocks.cell(i);
            let offset = min_pos.minus(p.times(BLOCK_SIZE));
            let end = offset.plus(size);
            let ghost now = self@;
            let has = match self.get_block(p) {
                Some(b) => Some(b.has_voxels()),
                None => None,
            };
            proof {
                assert(now.blocks.contains_key(p) == before.blocks.contains_key(p));
                assert(blocks.cells()[i as int] == p);
            }
            match has {
                Some(true) => {
                    match self.get_block_mut(p) {
                        Some(b) => {
                            let v = b.voxels_mut();
                            paste_buffer(v, src, offset, end, channels_mask, src_mask, dst_mask);
                        },
                        None => {},
                    }
                },
                Some(false) => {
                    if create {
                        let mut v = new_block_buffer(self.format());
                        paste_buffer(&mut v, src, offset, end, channels_mask, src_mask, dst_mask);
                        self.set_block_buffer(p, v, true);
                    }
                },
                None => {
                    if create {
                        let mut v = new_block_buffer(self.format());
                        paste_buffer(&mut v, src, offset, end, channels_mask, src_mask, dst_mask);
                        self.set_block_buffer(p, v, true);
                    }
                },
            }
            proof {
                if create || before.has_voxels(p) {
                    assert(self@ == now.with_block(
                        p,
                        pasted_block(before, min_pos@, src@, rules, channels_mask, p),
                    ));
                } else {
                    assert(self@ == now);
                }
                lemma_paste_step(
                    before,
                    now,
                    self@,
                    min_pos@,
                    src@,
                    rules,
                    channels_mask,
                    create,
                    blocks.cells(),
                    i as int,
                );
            }
            i = i + 1;
        }
        proof {
            blocks.lemma_cells();
            let after = pasted_map(before, min_pos@, src@, rules, channels_mask, create);
            assert forall|p: Vector3i| paste_touches(min_pos@, src@.size, p)
                == blocks.cells().take(n as int).contains(p) by {
                assert(blocks.cells().take(n as int) =~= blocks.cells());
                if blocks.has(p@) {
                    assert(blocks.cells().contains(p));
                }
                if blocks.cells().contains(p) {
                    let k = choose|k: int| 0 <= k < blocks.cells().len() && blocks.cells()[k] == p;
                    assert(blocks.has(blocks.cells()[k]@));
                }
            }
            assert(self@.blocks =~= after.blocks);
        }
    }
}

/// A paste has dealt with the first `n` of `cells`.
spec fn pasted_until(
    before: MapModel,
    now: MapModel,
    min_pos: Cell,
    src: BufferModel,
    rules: PasteRules,
    mask: u32,
    create: bool,
    cells: Seq<Vector3i>,
    n: int,
) -> bool {
    let written = |p: Vector3i| cells.take(n).contains(p) && (create || before.has_voxels(p));
    &&& now == MapModel { blocks: now.blocks, ..before }
    &&& forall|p: Vector3i| #[trigger]
        now.blocks.contains_key(p) <==> before.has(p) || written(p)
    &&& forall|p: Vector3i| #[trigger]
        now.blocks.contains_key(p) ==> now.blocks[p] == if written(p) {
            pasted_block(before, min_pos, src, rules, mask, p)
        } else {
            before.blocks[p]
        }
}

proof fn lemma_paste_step(
    before: MapModel,
    now: MapModel,
    next: MapModel,
    min_pos: Cell,
    src: BufferModel,
    rules: PasteRules,
    mask: u32,
    create: bool,
    cells: Seq<Vector3i>,
    n: int,
)
    requires
        0 <= n < cells.len(),
        pasted_until(before, now, min_pos, src, rules, mask, create, cells, n),
        next == if create || before.has_voxels(cells[n]) {
            now.with_block(cells[n], pasted_block(before, min_pos, src, rules, mask, cells[n]))
        } else {
            now
        },
    ensures
        pasted_until(before, next, min_pos, src, rules, mask, create, cells, n + 1),
{
    collections::lemma_take_contains(cells, n);
}

/// A new buffer for one block.
pub fn new_block_buffer(format: VoxelFormat) -> (b: VoxelBuffer)
    ensures
        b.wf(),
        b@ == voxel_data_map::block_buffer(format@),
        b@.size == Cell::splat(BLOCK_SIZE as int),
{
    proof {
        voxel_data_map::lemma_block_volume();
    }
    let mut b = VoxelBuffer::with_size(Vector3i::splat(BLOCK_SIZE));
    format.configure_buffer(&mut b);
    b
}

} // verus!
