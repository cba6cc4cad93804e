//! Copying a box of voxels out of voxel data.

use crate::boxes::Box3i;
use crate::buffer_model::{BufferModel, ChannelModel};
use crate::channel::{Compression, MAX_CHANNELS, MAX_SIZE};
use crate::depth;
use crate::funcs;
use crate::generator;
use crate::grid;
use crate::grid::Cell;
use crate::map_paste;
use crate::math::Vector3i;
use crate::voxel_buffer::VoxelBuffer;
use crate::voxel_data;
use crate::voxel_data::{DataModel, VoxelData};
use crate::voxel_data_map;
use crate::voxel_data_map::BLOCK_SIZE;
use crate::voxel_format;
use vstd::prelude::*;

verus! {

/// The blocks that a box of voxels of extent `size` at `min_pos` touches, in
/// ZXY order.
pub open spec fn copy_cells(min_pos: Vector3i, size: Cell) -> Seq<Vector3i> {
    let b = Box3i { position: min_pos, size: Vector3i::from_cell(size) };
    if b.vacant() {
        Seq::empty()
    } else {
        voxel_data::touched_blocks(b).cells()
    }
}

/// `src` is what block `p` is copied from: its own voxels; generated ones
/// where that is wanted and its first voxel is in bounds; otherwise the defaults
/// of the format.
pub open spec fn copy_source(
    d: DataModel,
    generate_missing: bool,
    p: Vector3i,
    src: BufferModel,
) -> bool {
    if d.lods[0].has_voxels(p) {
        Some(src) == d.lods[0].blocks[p].voxels
    } else if generate_missing && d.generator is Some && d.bounds.has(
        p@.times(BLOCK_SIZE as int),
    ) {
        src.wf() && generator::same_shape(
            voxel_data_map::block_buffer(d.format),
            src,
        ) && (d.generator->0).may_generate(
            voxel_data_map::block_buffer(d.format),
            Vector3i::from_cell(p@.times(BLOCK_SIZE as int)),
            0,
            src,
        )
    } else {
        src == voxel_data_map::block_buffer(d.format)
    }
}

/// The buffer after the selected channels of `src`, placed at `offset`, have
/// been copied into it.
pub open spec fn block_copied(
    dst: BufferModel,
    src: BufferModel,
    offset: Cell,
    mask: u32,
) -> BufferModel {
    BufferModel {
        channels: Seq::new(
            dst.channels.len(),
            |i: int|
                if map_paste::in_channels(mask, i) {
                    dst.channels[i].area_copied(
                        dst.size,
                        src.channels[i],
                        src.size,
                        Cell::zero(),
                        src.size,
                        offset,
                    )
                } else {
                    dst.channels[i]
                },
        ),
        ..dst
    }
}

/// The buffer after the first `n` blocks of `cells` have been copied into it.
pub open spec fn blocks_copied(
    dst: BufferModel,
    min_pos: Vector3i,
    mask: u32,
    cells: Seq<Vector3i>,
    sources: Seq<BufferModel>,
    n: int,
) -> BufferModel
    decreases n,
{
    if n <= 0 {
        dst
    } else {
        block_copied(
            blocks_copied(dst, min_pos, mask, cells, sources, n - 1),
            sources[n - 1],
            cells[n - 1]@.times(BLOCK_SIZE as int).minus(min_pos@),
            mask,
        )
    }
}

/// Each of the first `n` blocks has its source.
pub open spec fn copy_sources(
    d: DataModel,
    generate_missing: bool,
    cells: Seq<Vector3i>,
    sources: Seq<BufferModel>,
) -> bool {
    forall|k: int|
        0 <= k < sources.len() ==> copy_source(
            d,
            generate_missing,
            cells[k],
            #[trigger] sources[k],
        )
}

/// `after` is a possible result of copying the box at `min_pos` into a buffer
/// that held `before`.
pub open spec fn copy_outcome(
    d: DataModel,
    before: BufferModel,
    min_pos: Vector3i,
    mask: u32,
    generate_missing: bool,
    after: BufferModel,
) -> bool {
    if mask == 0 {
        after == before
    } else {
        let start = voxel_format::formatted(before, d.format);
        let cells = copy_cells(min_pos, before.size);
        exists|sources: Seq<BufferModel>| #[trigger]
            copy_sources(d, generate_missing, cells, sources) && sources.len() == cells.len()
                && after == blocks_copied(
                start,
                min_pos,
                mask,
                cells,
                sources,
                cells.len() as int,
            )
    }
}

/// The blocks in `cells` that have voxels have the depths of the format in the
/// selected channels.
pub open spec fn copy_depths_agree(d: DataModel, cells: Seq<Vector3i>, mask: u32) -> bool {
    forall|p: Vector3i, i: int|
        cells.contains(p) && d.lods[0].has_voxels(p) && 0 <= i < MAX_CHANNELS
            && map_paste::in_channels(mask, i) ==> (
        #[trigger] d.lods[0].blocks[p].voxels->0.channels[i]).depth == d.format[i]
}

/// Clipping the copy of a block that overlaps a buffer meets small numbers only.
proof fn lemma_block_clip_fits(offset: Cell, size: Cell)
    requires
        Cell::splat(-BLOCK_SIZE as int).lt(offset),
        offset.lt(size),
        Cell::zero().le(size),
        size.le(Cell::splat(MAX_SIZE as int)),
    ensures
        ({
            let lo = Cell::zero();
            let hi = Cell::splat(BLOCK_SIZE as int);
            let (clo, chi, to) = funcs::copy_extent(lo, hi, hi, offset, size);
            funcs::clip_region_fits(lo.min(hi), lo.max(hi), hi, offset, size) && chi.minus(
                clo,
            ).fits()
        }),
{
}

/// Copies the selected channels of a block into `dst`.
#[verifier::spinoff_prover]
#[verifier::rlimit(40)]
fn copy_block(dst: &mut VoxelBuffer, src: &VoxelBuffer, offset: Vector3i, channels_mask: u32)
    requires
        old(dst).wf(),
        src.wf(),
        src@.size == Cell::splat(BLOCK_SIZE as int),
        Cell::splat(-BLOCK_SIZE as int).lt(offset@),
        offset@.lt(old(dst)@.size),
        forall|i: int|
            0 <= i < MAX_CHANNELS && map_paste::in_channels(channels_mask, i) ==> (
            #[trigger] src@.channels[i]).depth == old(dst)@.channels[i].depth,
    ensures
        final(dst).wf(),
        final(dst)@ == block_copied(old(dst)@, src@, offset@, channels_mask),
{
    let ghost before = dst@;
    let ghost target = block_copied(before, src@, offset@, channels_mask);
    let src_size = src.size();
    proof {
        dst.lemma_wf();
    }
    let mut i: usize = 0;
    while i < MAX_CHANNELS
        invariant
            i <= MAX_CHANNELS,
            dst.wf(),
            src.wf(),
            src_size@ == src@.size,
            src@.size == Cell::splat(BLOCK_SIZE as int),
            Cell::splat(-BLOCK_SIZE as int).lt(offset@),
            offset@.lt(before.size),
            forall|k: int|
                0 <= k < MAX_CHANNELS && map_paste::in_channels(channels_mask, k) ==> (
                #[trigger] src@.channels[k]).depth == before.channels[k].depth,
            before.channels.len() == MAX_CHANNELS,
            Cell::zero().le(before.size),
            before.size.le(Cell::splat(MAX_SIZE as int)),
            dst@ == (BufferModel { channels: dst@.channels, ..before }),
            dst@.channels.len() == MAX_CHANNELS,
            target == block_copied(before, src@, offset@, channels_mask),
            forall|k: int| 0 <= k < i ==> #[trigger] dst@.channels[k] == target.channels[k],
            forall|k: int|
                i <= k < MAX_CHANNELS ==> #[trigger] dst@.channels[k] == before.channels[k],
        decreases MAX_CHANNELS - i,
    {
        if (channels_mask >> (i as u32)) & 1 == 1 {
            proof {
                assert(map_paste::in_channels(channels_mask, i as int));
                assert(src@.channels[i as int].depth == before.channels[i as int].depth);
                assert(dst@.channels[i as int] == before.channels[i as int]);
                lemma_block_clip_fits(offset@, before.size);
            }
            dst.copy_channel_from_area(src, Vector3i::zero(), src_size, offset, i);
        }
        i = i + 1;
    }
    assert(dst@.channels =~= target.channels);
}

impl VoxelData {
    /// Copies a box of the finest level into `dst_buffer`, which fixes its
    /// extent and gets the format of the data. `channels_mask` selects the
    /// channels. Where no block is there, a generator fills in if that is
    /// wanted; otherwise the voxels get the defaults of the format.
    pub fn copy(
        &self,
        min_pos: Vector3i,
        dst_buffer: &mut VoxelBuffer,
        channels_mask: u32,
        generate_missing: bool,
    )
        requires
            self.wf(),
            old(dst_buffer).wf(),
            min_pos@.plus(old(dst_buffer)@.size).fits(),
            copy_depths_agree(
                self@,
                copy_cells(min_pos, old(dst_buffer)@.size),
                channels_mask,
            ),
        ensures
            final(dst_buffer).wf(),
            copy_outcome(
                self@,
                old(dst_buffer)@,
                min_pos,
                channels_mask,
                generate_missing,
                final(dst_buffer)@,
            ),
    {
        if channels_mask == 0 {
            return;
        }
        let ghost before = dst_buffer@;
        let ghost cells = copy_cells(min_pos, before.size);
        let ghost mut sources: Seq<BufferModel> = Seq::empty();
        proof {
            dst_buffer.lemma_wf();
            self.lemma_wf();
        }
        let format = self.format();
        format.configure_buffer(dst_buffer);
        let ghost start = dst_buffer@;
        proof {
            dst_buffer.lemma_wf();
        }
        let dst_size = dst_buffer.size();
        if dst_size.x <= 0 || dst_size.y <= 0 || dst_size.z <= 0 {
            proof {
                assert(copy_sources(self@, generate_missing, cells, sources));
            }
            return;
        }
        let blank = map_paste::new_block_buffer(format);
        let area = Box3i { position: min_pos, size: dst_size };
        let blocks = voxel_data::touched(area);
        let n: u128 = blocks.cell_count();
        proof {
            blocks.lemma_cells();
            assert(area.size == Vector3i::from_cell(before.size));
        }
        let mut i: u128 = 0;
        while i < n
            invariant
                i <= n,
                n == cells.len(),
                cells == blocks.cells(),
                blocks.representable(),
                forall|k: int|
                    0 <= k < cells.len() ==> blocks.has((#[trigger] cells[k])@),
                blocks.position@ == area.over(BLOCK_SIZE as int).0,
                blocks.end() == area.over(BLOCK_SIZE as int).1,
                area == (Box3i { position: min_pos, size: dst_size }),
                !area.vacant(),
                area.end().fits(),
                dst_size@ == start.size,
                self.wf(),
                self@.wf(),
                format@ == self@.format,
                blank.wf(),
                blank@ == voxel_data_map::block_buffer(self@.format),
                copy_depths_agree(self@, cells, channels_mask),
                dst_buffer.wf(),
                start.channels.len() == MAX_CHANNELS,
                forall|c: int|
                    0 <= c < MAX_CHANNELS ==> (#[trigger] start.channels[c]).depth
                        == self@.format[c],
                sources.len() == i,
                copy_sources(self@, generate_missing, cells, sources),
                dst_buffer@ == blocks_copied(
                    start,
                    min_pos,
                    channels_mask,
                    cells,
                    sources,
                    i as int,
                ),
                copy_keeps(start, dst_buffer@),
            decreases n - i,
        {
            let p = blocks.cell(i);
            proof {
                assert(blocks.has(cells[i as int]@));
                assert(cells.contains(p));
                voxel_data_map::lemma_block_buffer(self@.format);
                lemma_block_overlaps(area, blocks, p);
            }
            let origin = p.times(BLOCK_SIZE);
            let offset = origin.minus(min_pos);
            let ghost mid = dst_buffer@;
            let ghost mut src = blank@;
            assert forall|c: int| 0 <= c < MAX_CHANNELS implies (#[trigger] blank@.channels[c]).depth
                == mid.channels[c].depth by {
                assert(start.channels[c].depth == self@.format[c]);
            }
            match self.resident_block(p) {
                Some(voxels) => {
                    proof {
                        src = voxels@;
                        assert forall|c: int|
                            0 <= c < MAX_CHANNELS && map_paste::in_channels(
                                channels_mask,
                                c,
                            ) implies (#[trigger] voxels@.channels[c]).depth
                            == mid.channels[c].depth by {
                            assert(start.channels[c].depth == self@.format[c]);
                        }
                    }
                    copy_block(dst_buffer, voxels, offset, channels_mask);
                },
                None => {
                    if generate_missing && self.bounds().contains_point(origin) {
                        match self.generator() {
                            Some(g) => {
                                let mut scratch = map_paste::new_block_buffer(format);
                                g.generate_block(&mut scratch, origin, 0);
                                proof {
                                    scratch.lemma_wf();
                                    src = scratch@;
                                    assert forall|c: int|
                                        0 <= c < MAX_CHANNELS && map_paste::in_channels(
                                            channels_mask,
                                            c,
                                        ) implies (#[trigger] scratch@.channels[c]).depth
                                        == mid.channels[c].depth by {
                                        assert(start.channels[c].depth == self@.format[c]);
                                        assert(voxel_data_map::block_buffer(
                                            self@.format,
                                        ).channels[c].depth == self@.format[c]);
                                    }
                                }
                                copy_block(dst_buffer, &scratch, offset, channels_mask);
                            },
                            None => {
                                copy_block(dst_buffer, &blank, offset, channels_mask);
                            },
                        }
                    } else {
                        copy_block(dst_buffer, &blank, offset, channels_mask);
                    }
                },
            }
            proof {
                lemma_blocks_copied_prefix(
                    start,
                    min_pos,
                    channels_mask,
                    cells,
                    sources,
                    src,
                    i as int,
                );
                let longer = sources.push(src);
                assert(copy_source(self@, generate_missing, cells[i as int], src));
                assert forall|k: int| 0 <= k < longer.len() implies copy_source(
                    self@,
                    generate_missing,
                    cells[k],
                    #[trigger] longer[k],
                ) by {
                    if k < i {
                        assert(longer[k] == sources[k]);
                    }
                }
                sources = longer;
            }
            i = i + 1;
        }
        assert(copy_sources(self@, generate_missing, cells, sources));
    }

    /// The voxels of a block of the finest level.
    fn resident_block(&self, p: Vector3i) -> (r: Option<&VoxelBuffer>)
        requires
            self.wf(),
        ensures
            r is Some <==> self@.lods[0].has_voxels(p),
            r matches Some(v) ==> v.wf() && Some(v@) == self@.lods[0].blocks[p].voxels
                && v@.size == Cell::splat(BLOCK_SIZE as int),
    {
        proof {
            self.lemma_wf();
        }
        match self.get_block(p, 0) {
            Some(block) => {
                if block.has_voxels() {
                    let v = block.voxels();
                    proof {
                        v.lemma_wf();
                        assert(self@.lods[0].wf());
                        assert(voxel_data_map::block_fits(self@.lods[0].blocks[p]));
                    }
                    Some(v)
                } else {
                    None
                }
            },
            None => None,
        }
    }
}

/// Both buffers have the same extent, and channels of the same depths.
pub open spec fn copy_keeps(a: BufferModel, b: BufferModel) -> bool {
    &&& a.size == b.size
    &&& a.channels.len() == b.channels.len()
    &&& forall|c: int|
        0 <= c < a.channels.len() ==> (#[trigger] b.channels[c]).depth == a.channels[c].depth
}

/// A block that a box touches begins before the box ends, and less than a block
/// before it begins.
proof fn lemma_block_overlaps(area: Box3i, blocks: Box3i, p: Vector3i)
    requires
        !area.vacant(),
        blocks.position@ == area.over(BLOCK_SIZE as int).0,
        blocks.end() == area.over(BLOCK_SIZE as int).1,
        blocks.has(p@),
    ensures
        Cell::splat(-BLOCK_SIZE as int).lt(
            p@.times(BLOCK_SIZE as int).minus(area.position@),
        ),
        p@.times(BLOCK_SIZE as int).minus(area.position@).lt(area.size@),
        area.end().fits() ==> p@.times(BLOCK_SIZE as int).fits(),
{
    lemma_axis_overlaps(area.position.x as int, area.size.x as int, p.x as int);
    lemma_axis_overlaps(area.position.y as int, area.size.y as int, p.y as int);
    lemma_axis_overlaps(area.position.z as int, area.size.z as int, p.z as int);
}

proof fn lemma_axis_overlaps(pos: int, size: int, q: int)
    requires
        size > 0,
        pos / 16 <= q < (pos + size + 15) / 16,
    ensures
        -16 < q * 16 - pos < size,
        pos >= i32::MIN ==> q * 16 >= i32::MIN,
{
}

proof fn lemma_blocks_copied_prefix(
    dst: BufferModel,
    min_pos: Vector3i,
    mask: u32,
    cells: Seq<Vector3i>,
    sources: Seq<BufferModel>,
    more: BufferModel,
    n: int,
)
    requires
        0 <= n <= sources.len(),
    ensures
        blocks_copied(dst, min_pos, mask, cells, sources.push(more), n) == blocks_copied(
            dst,
            min_pos,
            mask,
            cells,
            sources,
            n,
        ),
    decreases n,
{
    if n > 0 {
        lemma_blocks_copied_prefix(dst, min_pos, mask, cells, sources, more, n - 1);
        assert(sources.push(more)[n - 1] == sources[n - 1]);
    }
}

/// A voxel of a channel after a whole grid, placed at `offset`, has been copied
/// into it. Values are compared as far as the depth reaches.
proof fn lemma_area_copied_at(
    ch: ChannelModel,
    size: Cell,
    src: ChannelModel,
    src_size: Cell,
    offset: Cell,
    c: Cell,
)
    requires
        ch.wf(grid::volume(size)),
        src.wf(grid::volume(src_size)),
        ch.depth == src.depth,
        Cell::zero().lt(src_size),
        c.in_grid(size),
    ensures
        ({
            let after = ch.area_copied(size, src, src_size, Cell::zero(), src_size, offset);
            &&& after.depth == ch.depth
            &&& after.wf(grid::volume(size))
            &&& ch.depth.truncated(after.at(grid::zxy(size, c))) == if c.minus(offset).in_grid(
                src_size,
            ) {
                ch.depth.truncated(src.at(grid::zxy(src_size, c.minus(offset))))
            } else {
                ch.depth.truncated(ch.at(grid::zxy(size, c)))
            }
        }),
{
    let (lo, hi, to) = funcs::copy_extent(Cell::zero(), src_size, src_size, offset, size);
    let end = to.plus(hi.minus(lo));
    let after = ch.area_copied(size, src, src_size, Cell::zero(), src_size, offset);
    let i = grid::zxy(size, c);
    grid::lemma_zxy_bounds(size, c);
    grid::lemma_cell_at_zxy(size, c);
    assert(c.within(to, end) <==> c.minus(offset).in_grid(src_size));
    if c.minus(offset).in_grid(src_size) {
        grid::lemma_zxy_bounds(src_size, c.minus(offset));
        assert(c.minus(to).plus(lo) == c.minus(offset));
    }
    assert forall|v: u64| ch.depth.truncated(#[trigger] ch.depth.truncated(v))
        == ch.depth.truncated(v) by {
        depth::truncation_is_idempotent(ch.depth, v);
    }
    if lo.lt(hi) {
        let (flo, fhi) = funcs::fill_extent(size, to, end);
        assert(flo == to && fhi == end);
        if src.compression == Compression::Dense {
            let dense = ch.made_dense(grid::volume(size));
            assert forall|k: int| 0 <= k < grid::volume(size) implies ch.depth.truncated(
                #[trigger] after.values[k],
            ) == after.values[k] by {
                grid::lemma_zxy_cell_at(size, k);
                let d = grid::cell_at(size, k);
                if d.within(to, end) {
                    let e = d.minus(to).plus(lo);
                    grid::lemma_zxy_bounds(src_size, e);
                    assert(after.values[k] == src.values[grid::zxy(src_size, e)]);
                } else {
                    assert(after.values[k] == dense.values[k]);
                }
            }
        } else if !(ch.compression == Compression::Uniform && ch.defval == src.defval) {
            let dense = ch.made_dense(grid::volume(size));
            assert forall|k: int| 0 <= k < grid::volume(size) implies ch.depth.truncated(
                #[trigger] after.values[k],
            ) == after.values[k] by {
                let d = grid::cell_at(size, k);
                if !d.within(to, end) {
                    assert(after.values[k] == dense.values[k]);
                }
            }
        }
    }
}

/// The value of one voxel once the first `n` blocks have been copied: that of
/// the source of its block, if that was among them.
proof fn lemma_blocks_copied_at(
    d: DataModel,
    start: BufferModel,
    min_pos: Vector3i,
    mask: u32,
    generate_missing: bool,
    cells: Seq<Vector3i>,
    sources: Seq<BufferModel>,
    n: int,
    i: int,
    c: Cell,
    at: int,
)
    requires
        d.wf(),
        start.wf(),
        0 <= n <= sources.len() == cells.len(),
        cells.no_duplicates(),
        copy_sources(d, generate_missing, cells, sources),
        copy_depths_agree(d, cells, mask),
        forall|k: int|
            0 <= k < MAX_CHANNELS ==> (#[trigger] start.channels[k]).depth == d.format[k],
        0 <= i < MAX_CHANNELS,
        map_paste::in_channels(mask, i),
        c.in_grid(start.size),
        0 <= at < cells.len(),
        cells[at]@ == min_pos@.plus(c).over(BLOCK_SIZE as int),
    ensures
        ({
            let now = blocks_copied(start, min_pos, mask, cells, sources, n);
            let depth = d.format[i];
            &&& now.size == start.size
            &&& now.channels.len() == MAX_CHANNELS
            &&& now.channels[i].depth == depth
            &&& now.channels[i].wf(grid::volume(start.size))
            &&& depth.truncated(now.value(i, c)) == if at < n {
                depth.truncated(
                    sources[at].value(
                        i,
                        min_pos@.plus(c).minus(cells[at]@.times(BLOCK_SIZE as int)),
                    ),
                )
            } else {
                depth.truncated(start.value(i, c))
            }
        }),
    decreases n,
{
    if n > 0 {
        lemma_blocks_copied_at(
            d,
            start,
            min_pos,
            mask,
            generate_missing,
            cells,
            sources,
            n - 1,
            i,
            c,
            at,
        );
        let q = cells[n - 1];
        assert(cells.contains(q));
        assert(copy_source(d, generate_missing, q, sources[n - 1]));
        let mid = blocks_copied(start, min_pos, mask, cells, sources, n - 1);
        let offset = q@.times(BLOCK_SIZE as int).minus(min_pos@);
        let src = sources[n - 1];
        voxel_data_map::lemma_block_buffer(d.format);
        voxel_data_map::lemma_block_volume();
        if d.lods[0].has_voxels(q) {
            assert(voxel_data_map::block_fits(d.lods[0].blocks[q]));
            assert(d.lods[0].blocks[q].voxels->0.channels[i].depth == d.format[i]);
        } else {
            let b = voxel_data_map::block_buffer(d.format);
            assert(b.channels[i].depth == d.format[i]);
        }
        assert(src.wf());
        assert(src.channels[i].wf(grid::volume(src.size)));
        lemma_area_copied_at(
            mid.channels[i],
            start.size,
            src.channels[i],
            src.size,
            offset,
            c,
        );
        let inside = c.minus(offset);
        assert(inside == min_pos@.plus(c).minus(q@.times(BLOCK_SIZE as int)));
        lemma_cell_of_block(min_pos@.plus(c), q@);
        if n - 1 != at {
            assert(cells[n - 1] != cells[at]);
            assert(Vector3i::from_cell(q@) == q);
            assert(Vector3i::from_cell(cells[at]@) == cells[at]);
        }
    }
}

/// A voxel lies in the block that its position over the block size names, and
/// in no other.
proof fn lemma_cell_of_block(v: Cell, q: Cell)
    ensures
        v.minus(q.times(BLOCK_SIZE as int)).in_grid(Cell::splat(BLOCK_SIZE as int)) <==> q
            == v.over(BLOCK_SIZE as int),
{
    assert(0 <= v.x - q.x * 16 < 16 <==> q.x == v.x / 16);
    assert(0 <= v.y - q.y * 16 < 16 <==> q.y == v.y / 16);
    assert(0 <= v.z - q.z * 16 < 16 <==> q.z == v.z / 16);
    let w = v.over(16);
    assert(q == w <==> q.x == w.x && q.y == w.y && q.z == w.z);
}

/// What a copy gives each voxel of a selected channel: the value that the
/// source of its block has there. Values are compared as far as the depth
/// reaches.
pub proof fn copied_voxels_come_from_their_blocks(
    d: DataModel,
    before: BufferModel,
    min_pos: Vector3i,
    mask: u32,
    generate_missing: bool,
    after: BufferModel,
    i: int,
    c: Cell,
)
    requires
        d.wf(),
        before.wf(),
        min_pos@.plus(before.size).fits(),
        copy_depths_agree(d, copy_cells(min_pos, before.size), mask),
        copy_outcome(d, before, min_pos, mask, generate_missing, after),
        0 <= i < MAX_CHANNELS,
        map_paste::in_channels(mask, i),
        c.in_grid(before.size),
    ensures
        ({
            let v = Vector3i::from_cell(min_pos@.plus(c));
            let p = voxel_data_map::block_of(v);
            exists|src: BufferModel| #[trigger]
                copy_source(d, generate_missing, p, src) && d.format[i].truncated(
                    after.value(i, c),
                ) == d.format[i].truncated(src.value(i, voxel_data_map::local_of(v)))
        }),
{
    assert(mask != 0) by {
        assert(forall|k: u32| #![auto] (0u32 >> k) & 1 == 0) by (bit_vector);
    }
    let start = voxel_format::formatted(before, d.format);
    let cells = copy_cells(min_pos, before.size);
    let sources = choose|sources: Seq<BufferModel>| #[trigger]
        copy_sources(d, generate_missing, cells, sources) && sources.len() == cells.len() && after
            == blocks_copied(start, min_pos, mask, cells, sources, cells.len() as int);
    let area = Box3i { position: min_pos, size: Vector3i::from_cell(before.size) };
    let blocks = voxel_data::touched_blocks(area);
    let v = Vector3i::from_cell(min_pos@.plus(c));
    let p = voxel_data_map::block_of(v);
    assert(v@ == min_pos@.plus(c));
    voxel_data::lemma_voxel_box_blocks(area);
    assert(blocks.position@ == area.over(BLOCK_SIZE as int).0);
    assert(blocks.end() == area.over(BLOCK_SIZE as int).1);
    blocks.lemma_cells();
    assert(p@ == v@.over(BLOCK_SIZE as int));
    assert(blocks.has(p@));
    assert(cells.contains(p));
    let at = choose|k: int| 0 <= k < cells.len() && cells[k] == p;
    assert(cells[at] == p);
    assert forall|k: int| 0 <= k < MAX_CHANNELS implies (#[trigger] start.channels[k]).depth
        == d.format[k] && start.channels[k].wf(grid::volume(before.size)) by {
        assert(before.channels[k].wf(grid::volume(before.size)));
    }
    lemma_blocks_copied_at(
        d,
        start,
        min_pos,
        mask,
        generate_missing,
        cells,
        sources,
        cells.len() as int,
        i,
        c,
        at,
    );
    assert(v@.minus(p@.times(BLOCK_SIZE as int)) == voxel_data_map::local_of(v));
    assert(copy_source(d, generate_missing, p, sources[at]));
}

} // verus!
