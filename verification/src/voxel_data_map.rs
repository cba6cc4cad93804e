//! A sparse map of voxel blocks at one level of detail.

use crate::boxes::Box3i;
use crate::buffer_model::BufferModel;
use crate::channel::Allocator;
use crate::collections;
use crate::depth::ChannelDepth;
use crate::grid;
use crate::grid::Cell;
use crate::math::Vector3i;
use crate::position_map::PosMap;
use crate::voxel_buffer::VoxelBuffer;
use crate::voxel_data_block::{BlockModel, VoxelDataBlock};
use crate::voxel_format;
use crate::voxel_format::VoxelFormat;
use vstd::prelude::*;

verus! {

/// Edge of a block in voxels.
pub const BLOCK_SIZE: i32 = 16;

/// What a map of blocks holds. A key keeps its revision when its block goes.
#[verifier::ext_equal]
pub struct MapModel {
    pub lod_index: u8,
    pub format: Seq<ChannelDepth>,
    pub blocks: Map<Vector3i, BlockModel>,
    pub revisions: Map<Vector3i, u64>,
}

/// A block's voxels, where there are any, have the extent of a block.
pub open spec fn block_fits(b: BlockModel) -> bool {
    b.voxels matches Some(v) ==> v.size == Cell::splat(BLOCK_SIZE as int)
}

/// A new buffer for one block in the given format.
pub open spec fn block_buffer(format: Seq<ChannelDepth>) -> BufferModel {
    voxel_format::formatted(
        BufferModel::fresh(Allocator::Default).created(Cell::splat(BLOCK_SIZE as int)),
        format,
    )
}

impl MapModel {
    pub open spec fn empty(lod_index: u8, format: Seq<ChannelDepth>) -> MapModel {
        MapModel { lod_index, format, blocks: Map::empty(), revisions: Map::empty() }
    }

    /// The revision of a key; zero until one is committed.
    pub open spec fn revision(self, p: Vector3i) -> u64 {
        if self.revisions.contains_key(p) {
            self.revisions[p]
        } else {
            0
        }
    }

    pub open spec fn has(self, p: Vector3i) -> bool {
        self.blocks.contains_key(p)
    }

    /// There is a block with voxels at `p`.
    pub open spec fn has_voxels(self, p: Vector3i) -> bool {
        self.blocks.contains_key(p) && self.blocks[p].voxels is Some
    }

    pub open spec fn with_block(self, p: Vector3i, b: BlockModel) -> MapModel {
        MapModel { blocks: self.blocks.insert(p, b), ..self }
    }

    pub open spec fn without_block(self, p: Vector3i) -> MapModel {
        MapModel { blocks: self.blocks.remove(p), ..self }
    }

    pub open spec fn with_revision(self, p: Vector3i, revision: u64) -> MapModel {
        MapModel { revisions: self.revisions.insert(p, revision), ..self }
    }

    /// New voxels at `p`: a new block, or the old one with its state.
    pub open spec fn with_buffer(self, p: Vector3i, voxels: BufferModel) -> MapModel {
        self.with_block(
            p,
            if self.has(p) {
                BlockModel { voxels: Some(voxels), ..self.blocks[p] }
            } else {
                BlockModel::fresh(Some(voxels), self.lod_index)
            },
        )
    }

    /// Voxel `pos` of channel `c` set to `value`.
    pub open spec fn voxel_set(self, pos: Vector3i, c: int, value: u64) -> MapModel {
        let bp = block_of(pos);
        self.with_buffer(bp, self.blocks[bp].voxels->0.voxel_set(c, local_of(pos), value))
    }

    pub open spec fn wf(self) -> bool {
        &&& self.format.len() == 8
        &&& forall|p: Vector3i| #[trigger]
            self.blocks.contains_key(p) ==> self.blocks[p].wf() && block_fits(self.blocks[p])
    }
}

/// The block that voxel `pos` lies in.
pub open spec fn block_of(pos: Vector3i) -> Vector3i {
    Vector3i::from_cell(pos@.over(BLOCK_SIZE as int))
}

/// Where voxel `pos` lies inside its block.
pub open spec fn local_of(pos: Vector3i) -> Cell {
    pos@.minus(pos@.over(BLOCK_SIZE as int).times(BLOCK_SIZE as int))
}

/// A voxel lies inside its block.
pub proof fn lemma_local(pos: Vector3i)
    ensures
        local_of(pos).in_grid(Cell::splat(BLOCK_SIZE as int)),
        block_of(pos)@ == pos@.over(BLOCK_SIZE as int),
{
}

/// The extent of a block is small.
pub proof fn lemma_block_volume()
    ensures
        grid::volume(Cell::splat(BLOCK_SIZE as int)) == 4096,
{
    assert(16int * 16 * 16 == 4096);
}

/// A new buffer for one block is well-formed and has the extent of a block.
pub proof fn lemma_block_buffer(format: Seq<ChannelDepth>)
    requires
        format.len() == 8,
    ensures
        block_buffer(format).wf(),
        block_buffer(format).size == Cell::splat(BLOCK_SIZE as int),
{
    lemma_block_volume();
    let b = block_buffer(format);
    assert forall|i: int| 0 <= i < 8 implies #[trigger] b.channels[i].wf(grid::volume(b.size)) by {
    }
}

/// A sparse map of voxel blocks at one level of detail, with a revision for
/// every key.
#[derive(Debug)]
pub struct VoxelDataMap {
    lod_index: u8,
    format: VoxelFormat,
    blocks: PosMap<VoxelDataBlock>,
    key_revisions: PosMap<u64>,
}

impl View for VoxelDataMap {
    type V = MapModel;

    closed spec fn view(&self) -> MapModel {
        MapModel {
            lod_index: self.lod_index,
            format: self.format@,
            blocks: self.blocks@.map_values(|b: VoxelDataBlock| b@),
            revisions: self.key_revisions@,
        }
    }
}

impl VoxelDataMap {
    pub const BLOCK_SIZE: u32 = 16;

    pub const BLOCK_SIZE_PO2: u8 = 4;

    /// Every block is well-formed and has the extent of a block.
    pub closed spec fn wf(&self) -> bool {
        &&& self.blocks.wf()
        &&& self.key_revisions.wf()
        &&& forall|p: Vector3i| #[trigger]
            self.blocks@.contains_key(p) ==> self.blocks@[p].wf() && block_fits(self.blocks@[p]@)
    }

    pub proof fn lemma_wf(&self)
        requires
            self.wf(),
        ensures
            self@.wf(),
            self@.blocks.dom().finite(),
    {
        self.blocks.lemma_finite();
        assert(self@.blocks.dom() =~= self.blocks@.dom());
        assert forall|p: Vector3i| #[trigger] self@.blocks.contains_key(p) implies
            self@.blocks[p].wf() && block_fits(self@.blocks[p]) by {
            assert(self.blocks@.contains_key(p));
            self.blocks@[p].lemma_wf();
        }
    }

    pub fn new(lod_index: u8) -> (m: VoxelDataMap)
        ensures
            m.wf(),
            m@ == MapModel::empty(lod_index, voxel_format::default_depths()),
    {
        let m = VoxelDataMap {
            lod_index,
            format: VoxelFormat::new(),
            blocks: PosMap::new(),
            key_revisions: PosMap::new(),
        };
        assert(m@.blocks =~= Map::empty());
        m
    }

    /// Drops all blocks and revisions.
    pub fn create(&mut self, lod_index: u8)
        ensures
            final(self).wf(),
            final(self)@ == MapModel::empty(lod_index, old(self)@.format),
    {
        self.lod_index = lod_index;
        self.blocks.clear();
        self.key_revisions.clear();
        assert(self@.blocks =~= Map::empty());
    }

    /// Sets the format of blocks made later.
    pub fn set_format(&mut self, format: VoxelFormat)
        requires
            old(self).wf(),
        ensures
            final(self).wf(),
            final(self)@ == (MapModel { format: format@, ..old(self)@ }),
    {
        self.format = format;
        assert(self@.blocks =~= old(self)@.blocks);
    }

    /// The format of blocks made later.
    pub fn format(&self) -> (f: VoxelFormat)
        ensures
            f@ == self@.format,
    {
        self.format
    }

    pub fn has_block(&self, pos: Vector3i) -> (b: bool)
        ensures
            b == self@.has(pos),
    {
        self.blocks.contains(pos)
    }

    pub fn get_block(&self, pos: Vector3i) -> (b: Option<&VoxelDataBlock>)
        requires
            self.wf(),
        ensures
            b is Some <==> self@.has(pos),
            b matches Some(r) ==> r@ == self@.blocks[pos] && r.wf() && block_fits(r@),
    {
        let r = self.blocks.get(pos);
        proof {
            if self@.has(pos) {
                assert(self.blocks@.contains_key(pos));
            }
        }
        r
    }

    /// The block at `pos`, to be changed. The map stays well-formed as long as
    /// the block does.
    pub fn get_block_mut(&mut self, pos: Vector3i) -> (b: Option<&mut VoxelDataBlock>)
        requires
            old(self).wf(),
        ensures
            b is Some <==> old(self)@.has(pos),
            match b {
                Some(r) => {
                    &&& r@ == old(self)@.blocks[pos]
                    &&& r.wf()
                    &&& block_fits(r@)
                    &&& final(self)@ == old(self)@.with_block(pos, final(r)@)
                    &&& final(r).wf() && block_fits(final(r)@) ==> final(self).wf()
                },
                None => final(self).wf() && final(self)@ == old(self)@,
            },
    {
        proof {
            self.lemma_any_block(pos);
            if self@.has(pos) {
                assert(self.blocks@.contains_key(pos));
            }
        }
        self.blocks.get_mut(pos)
    }

    /// Whatever block is put at `pos`, the model follows.
    proof fn lemma_any_block(&self, pos: Vector3i)
        requires
            self.wf(),
        ensures
            forall|after: VoxelDataMap, b: VoxelDataBlock|
                #![trigger after.wf(), b.view()]
                #![trigger after.view(), b.view()]
                after.lod_index == self.lod_index && after.format == self.format
                    && after.key_revisions == self.key_revisions && after.blocks.wf()
                    && after.blocks@ == self.blocks@.insert(pos, b) ==> after@
                    == self@.with_block(pos, b@) && (b.wf() && block_fits(b@) ==> after.wf()),
    {
        assert forall|after: VoxelDataMap, b: VoxelDataBlock|
            #![trigger after.wf(), b.view()]
            #![trigger after.view(), b.view()]
            after.lod_index == self.lod_index && after.format == self.format && after.key_revisions
                == self.key_revisions && after.blocks.wf() && after.blocks@ == self.blocks@.insert(
                pos,
                b,
            ) implies after@ == self@.with_block(pos, b@) && (b.wf() && block_fits(b@)
            ==> after.wf()) by {
            assert(after@.blocks =~= self@.with_block(pos, b@).blocks);
        }
    }

    /// Puts a block at `pos`. An old one is only replaced if `overwrite` says
    /// so.
    pub fn set_block(&mut self, pos: Vector3i, block: VoxelDataBlock, overwrite: bool)
        requires
            old(self).wf(),
            block.wf(),
            block_fits(block@),
        ensures
            final(self).wf(),
            final(self)@ == if overwrite || !old(self)@.has(pos) {
                old(self)@.with_block(pos, block@)
            } else {
                old(self)@
            },
    {
        if overwrite || !self.blocks.contains(pos) {
            let _ = self.blocks.insert(pos, block);
            assert(self@.blocks =~= old(self)@.with_block(pos, block@).blocks);
        }
    }

    /// Puts voxels at `pos`. A block that is there keeps its state; its voxels
    /// are only replaced if `overwrite` says so.
    pub fn set_block_buffer(&mut self, pos: Vector3i, voxels: VoxelBuffer, overwrite: bool)
        requires
            old(self).wf(),
            voxels.wf(),
            voxels@.size == Cell::splat(BLOCK_SIZE as int),
        ensures
            final(self).wf(),
            final(self)@ == if overwrite || !old(self)@.has(pos) {
                old(self)@.with_buffer(pos, voxels@)
            } else {
                old(self)@
            },
    {
        if !self.blocks.contains(pos) {
            let block = VoxelDataBlock::with_voxels(voxels, self.lod_index);
            let _ = self.blocks.insert(pos, block);
            assert(self@.blocks =~= old(self)@.with_buffer(pos, voxels@).blocks);
        } else if overwrite {
            match self.get_block_mut(pos) {
                Some(block) => {
                    block.set_voxels(voxels);
                },
                None => {},
            }
        }
    }

    pub fn remove_block(&mut self, pos: Vector3i) -> (b: Option<VoxelDataBlock>)
        requires
            old(self).wf(),
        ensures
            final(self).wf(),
            final(self)@ == old(self)@.without_block(pos),
            b is Some <==> old(self)@.has(pos),
            b matches Some(r) ==> r@ == old(self)@.blocks[pos] && r.wf() && block_fits(r@),
    {
        proof {
            if self@.has(pos) {
                assert(self.blocks@.contains_key(pos));
            }
        }
        let r = self.blocks.remove(pos);
        assert(self@.blocks =~= old(self)@.without_block(pos).blocks);
        r
    }

    pub fn block_count(&self) -> (n: usize)
        requires
            self.wf(),
        ensures
            n == self@.blocks.len(),
            n == 0 <==> self@.blocks == Map::<Vector3i, BlockModel>::empty(),
    {
        let n: usize = self.blocks.len();
        proof {
            assert(self@.blocks.dom() =~= self.blocks@.dom());
            self.blocks.lemma_finite();
            if n == 0 {
                self@.blocks.dom().lemma_len0_is_empty();
                assert(self@.blocks =~= Map::<Vector3i, BlockModel>::empty());
            }
        }
        n
    }

    /// The positions of the blocks, each once, in no particular order.
    pub fn block_positions(&self) -> (r: Vec<Vector3i>)
        requires
            self.wf(),
        ensures
            r@.no_duplicates(),
            r@.to_set() == self@.blocks.dom(),
    {
        let r = self.blocks.positions();
        assert(self@.blocks.dom() =~= self.blocks@.dom());
        r
    }

    /// The revision of a key.
    pub fn key_revision(&self, pos: Vector3i) -> (r: u64)
        ensures
            r == self@.revision(pos),
    {
        match self.key_revisions.get(pos) {
            Some(r) => *r,
            None => 0,
        }
    }

    /// Gives a key a new revision.
    pub fn commit_key_revision(&mut self, pos: Vector3i, revision: u64)
        requires
            old(self).wf(),
        ensures
            final(self).wf(),
            final(self)@ == old(self)@.with_revision(pos, revision),
    {
        let _ = self.key_revisions.insert(pos, revision);
        assert(self@.blocks =~= old(self)@.blocks);
    }

    /// Asks for room for more blocks. Nothing changes either way. There is
    /// always room for none.
    pub fn try_reserve(&mut self, additional: usize) -> (reserved: bool)
        requires
            old(self).wf(),
        ensures
            final(self).wf(),
            final(self)@ == old(self)@,
            additional == 0 ==> reserved,
    {
        self.blocks.try_reserve(additional)
    }

    /// Asks for room for more revisions. Nothing changes either way. There is
    /// always room for none.
    pub fn try_reserve_key_revisions(&mut self, additional: usize) -> (reserved: bool)
        requires
            old(self).wf(),
        ensures
            final(self).wf(),
            final(self)@ == old(self)@,
            additional == 0 ==> reserved,
    {
        let reserved = self.key_revisions.try_reserve(additional);
        assert(self@.blocks =~= old(self)@.blocks);
        reserved
    }

    /// The block that a voxel lies in.
    pub fn voxel_to_block(pos: Vector3i) -> (b: Vector3i)
        ensures
            b == block_of(pos),
            b@ == pos@.over(BLOCK_SIZE as int),
    {
        let b = pos.floor_div(BLOCK_SIZE);
        assert(b@ == pos@.over(BLOCK_SIZE as int));
        b
    }

    /// Where a voxel lies inside its block.
    pub fn to_local(pos: Vector3i) -> (l: Vector3i)
        ensures
            l@ == local_of(pos),
            l@.in_grid(Cell::splat(BLOCK_SIZE as int)),
    {
        proof {
            lemma_local(pos);
        }
        pos.minus(pos.floor_div(BLOCK_SIZE).times(BLOCK_SIZE))
    }

    /// Sets a voxel of a block that has voxels.
    pub fn set_voxel(&mut self, value: u64, pos: Vector3i, channel_index: usize)
        requires
            old(self).wf(),
            channel_index < 8,
            old(self)@.has_voxels(block_of(pos)),
        ensures
            final(self).wf(),
            final(self)@ == old(self)@.voxel_set(pos, channel_index as int, value),
    {
        let block_pos = VoxelDataMap::voxel_to_block(pos);
        let l = VoxelDataMap::to_local(pos);
        match self.get_block_mut(block_pos) {
            Some(block) => {
                block.voxels_mut().set_voxel(value, l.x, l.y, l.z, channel_index);
            },
            None => {},
        }
        proof {
            let bp = block_of(pos);
            let before = old(self)@;
            let v = before.blocks[bp].voxels->0.voxel_set(
                channel_index as int,
                local_of(pos),
                value,
            );
            assert(self@.blocks =~= before.voxel_set(pos, channel_index as int, value).blocks);
        }
    }

    /// Every block that a box of voxels touches is there.
    pub fn is_area_fully_loaded(&self, voxel_box: Box3i) -> (b: bool)
        requires
            voxel_box.representable(),
        ensures
            b == forall|p: Vector3i|
                p@.within(
                    voxel_box.over(BLOCK_SIZE as int).0,
                    voxel_box.over(BLOCK_SIZE as int).1,
                ) && !voxel_box.vacant() ==> #[trigger] self@.has(p),
    {
        if voxel_box.is_empty() {
            return true;
        }
        let blocks = voxel_box.downscaled(BLOCK_SIZE);
        all_blocks_present(self, blocks)
    }
}

/// Every cell of a box of block positions has a block.
pub fn all_blocks_present(map: &VoxelDataMap, blocks: Box3i) -> (b: bool)
    requires
        blocks.representable(),
    ensures
        b == forall|p: Vector3i| blocks.has(p@) ==> #[trigger] map@.has(p),
{
    proof {
        blocks.lemma_cells();
    }
    let n: u128 = blocks.cell_count();
    let mut i: u128 = 0;
    while i < n
        invariant
            i <= n,
            n == blocks.cells().len(),
            blocks.representable(),
            forall|k: int| 0 <= k < i ==> map@.has(#[trigger] blocks.cells()[k]),
        decreases n - i,
    {
        let p = blocks.cell(i);
        if !map.has_block(p) {
            return false;
        }
        i = i + 1;
    }
    proof {
        assert forall|p: Vector3i| blocks.has(p@) implies #[trigger] map@.has(p) by {
            assert(blocks.cells().contains(p));
            let k = choose|k: int| 0 <= k < blocks.cells().len() && blocks.cells()[k] == p;
            assert(map@.has(blocks.cells()[k]));
        }
    }
    true
}

/// What becomes of the block at a position: from what is there, if anything, to
/// what is there then.
pub type BlockChange = spec_fn(Vector3i, Option<BlockModel>) -> Option<BlockModel>;

/// The blocks after each listed position has been changed by `f`.
pub open spec fn changed_blocks(
    blocks: Map<Vector3i, BlockModel>,
    cells: Seq<Vector3i>,
    f: BlockChange,
) -> Map<Vector3i, BlockModel> {
    Map::new(
        |p: Vector3i|
            if cells.contains(p) {
                f(p, blocks.get(p)) is Some
            } else {
                blocks.contains_key(p)
            },
        |p: Vector3i|
            if cells.contains(p) {
                f(p, blocks.get(p))->0
            } else {
                blocks[p]
            },
    )
}

impl MapModel {
    /// The map after each listed position has been changed by `f`.
    pub open spec fn changed(self, cells: Seq<Vector3i>, f: BlockChange) -> MapModel {
        MapModel { blocks: changed_blocks(self.blocks, cells, f), ..self }
    }

    /// The map with the block at `p` replaced, put in or taken out.
    pub open spec fn with_option(self, p: Vector3i, b: Option<BlockModel>) -> MapModel {
        match b {
            Some(b) => self.with_block(p, b),
            None => self.without_block(p),
        }
    }
}

/// Nothing is changed at the start.
pub proof fn lemma_changed_start(m: MapModel, cells: Seq<Vector3i>, f: BlockChange)
    ensures
        m.changed(cells.take(0), f) == m,
{
    assert(m.changed(cells.take(0), f).blocks =~= m.blocks);
}

/// Changing the next position continues the change. What is there is still what
/// was there at the start.
pub proof fn lemma_changed_step(m: MapModel, cells: Seq<Vector3i>, f: BlockChange, i: int)
    requires
        0 <= i < cells.len(),
        cells.no_duplicates(),
    ensures
        m.changed(cells.take(i), f).blocks.get(cells[i]) == m.blocks.get(cells[i]),
        m.changed(cells.take(i + 1), f) == m.changed(cells.take(i), f).with_option(
            cells[i],
            f(cells[i], m.blocks.get(cells[i])),
        ),
{
    let p = cells[i];
    collections::lemma_take_contains(cells, i);
    assert(!cells.take(i).contains(p)) by {
        if cells.take(i).contains(p) {
            let k = choose|k: int| 0 <= k < i && cells.take(i)[k] == p;
            assert(cells[k] == cells[i]);
        }
    }
    assert(m.changed(cells.take(i + 1), f).blocks =~= m.changed(cells.take(i), f).with_option(
        p,
        f(p, m.blocks.get(p)),
    ).blocks);
}

/// Changing the next position continues the change, also where the position
/// was listed before, if the change makes no difference the second time.
pub proof fn lemma_changed_again(m: MapModel, cells: Seq<Vector3i>, f: BlockChange, i: int)
    requires
        0 <= i < cells.len(),
        forall|p: Vector3i, o: Option<BlockModel>| #[trigger] f(p, f(p, o)) == f(p, o),
    ensures
        ({
            let now = m.changed(cells.take(i), f);
            m.changed(cells.take(i + 1), f) == now.with_option(
                cells[i],
                f(cells[i], now.blocks.get(cells[i])),
            )
        }),
{
    let p = cells[i];
    collections::lemma_take_contains(cells, i);
    let now = m.changed(cells.take(i), f);
    let o = m.blocks.get(p);
    if cells.take(i).contains(p) {
        assert(now.blocks.get(p) == f(p, o));
        assert(f(p, f(p, o)) == f(p, o));
    } else {
        assert(now.blocks.get(p) == o);
    }
    assert(m.changed(cells.take(i + 1), f).blocks =~= now.with_option(
        p,
        f(p, now.blocks.get(p)),
    ).blocks);
}

/// A change that leaves what is there changes nothing.
pub proof fn lemma_changed_same(m: MapModel, p: Vector3i)
    ensures
        m.with_option(p, m.blocks.get(p)) == m,
{
    assert(m.with_option(p, m.blocks.get(p)).blocks =~= m.blocks);
}

} // verus!
