//! Operations on every block of a box of block positions.

use crate::boxes::Box3i;
use crate::collections;
use crate::math::Vector3i;
use crate::voxel_data::{BlockToSave, SaveModel};
use crate::voxel_data_block::{BlockModel, VoxelDataBlock};
use crate::voxel_data_map;
use crate::voxel_data_map::{MapModel, VoxelDataMap};
use vstd::prelude::*;

verus! {

/// A block with voxels that is marked as modified and edited, and as waiting
/// for an update of the coarser levels if that is asked for.
pub open spec fn marked(b: BlockModel, require_lod_updates: bool) -> BlockModel {
    BlockModel {
        modified: true,
        edited: true,
        needs_lodding: b.needs_lodding || require_lod_updates,
        ..b
    }
}

/// `marked` on blocks with voxels; others stay.
pub open spec fn mark_change(
    require_lod_updates: bool,
) -> spec_fn(Vector3i, Option<BlockModel>) -> Option<BlockModel> {
    |p: Vector3i, o: Option<BlockModel>|
        match o {
            Some(b) => if b.voxels is Some {
                Some(marked(b, require_lod_updates))
            } else {
                Some(b)
            },
            None => None,
        }
}

/// The block at `p` has voxels and does not wait for an update of the coarser
/// levels yet.
pub open spec fn newly_needs_lod(m: MapModel, p: Vector3i) -> bool {
    m.has_voxels(p) && !m.blocks[p].needs_lodding
}

/// One viewer more on every block, up to the largest count.
pub open spec fn view_change() -> spec_fn(Vector3i, Option<BlockModel>) -> Option<BlockModel> {
    |p: Vector3i, o: Option<BlockModel>|
        match o {
            Some(b) => Some(viewed(b)),
            None => None,
        }
}

pub open spec fn viewed(b: BlockModel) -> BlockModel {
    BlockModel {
        viewers: if b.viewers < u32::MAX {
            (b.viewers + 1) as u32
        } else {
            u32::MAX
        },
        ..b
    }
}

/// One viewer less on every block; a block without viewers goes.
pub open spec fn unview_change() -> spec_fn(Vector3i, Option<BlockModel>) -> Option<BlockModel> {
    |p: Vector3i, o: Option<BlockModel>|
        match o {
            Some(b) => if b.viewers <= 1 {
                None
            } else {
                Some(BlockModel { viewers: (b.viewers - 1) as u32, ..b })
            },
            None => None,
        }
}

/// Every block goes.
pub open spec fn unload_change() -> spec_fn(Vector3i, Option<BlockModel>) -> Option<BlockModel> {
    |p: Vector3i, o: Option<BlockModel>| None
}

/// Every block is no longer modified.
pub open spec fn clean_change() -> spec_fn(Vector3i, Option<BlockModel>) -> Option<BlockModel> {
    |p: Vector3i, o: Option<BlockModel>|
        match o {
            Some(b) => Some(BlockModel { modified: false, ..b }),
            None => None,
        }
}

/// What has to be saved of the block at `p`.
pub open spec fn save_of(m: MapModel, p: Vector3i, lod_index: u8) -> SaveModel {
    SaveModel { voxels: m.blocks[p].voxels, position: p, lod_index, block_revision: 0 }
}

/// There is a modified block at `p`.
pub open spec fn modified_at(m: MapModel, p: Vector3i) -> bool {
    m.has(p) && m.blocks[p].modified
}

/// What a list of blocks to be saved holds.
pub open spec fn saves_of(s: Seq<BlockToSave>) -> Seq<SaveModel> {
    s.map_values(|b: BlockToSave| b@)
}

/// What a list of blocks holds.
pub open spec fn blocks_of(s: Seq<VoxelDataBlock>) -> Seq<BlockModel> {
    s.map_values(|b: VoxelDataBlock| b@)
}

/// Every entry is well-formed.
pub open spec fn saves_wf(s: Seq<BlockToSave>) -> bool {
    forall|i: int| 0 <= i < s.len() ==> (#[trigger] s[i]).wf()
}

/// Every entry is well-formed.
pub open spec fn blocks_wf(s: Seq<VoxelDataBlock>) -> bool {
    forall|i: int| 0 <= i < s.len() ==> (#[trigger] s[i]).wf()
}

/// Marks the blocks of a box as modified. Returns those, in ZXY order, that
/// newly wait for an update of the coarser levels.
pub fn mark_blocks(map: &mut VoxelDataMap, area: Box3i, require_lod_updates: bool) -> (r: Vec<
    Vector3i,
>)
    requires
        old(map).wf(),
        area.representable(),
    ensures
        final(map).wf(),
        final(map)@ == old(map)@.changed(area.cells(), mark_change(require_lod_updates)),
        r@ == if require_lod_updates {
            area.cells().filter(|p: Vector3i| newly_needs_lod(old(map)@, p))
        } else {
            Seq::empty()
        },
{
    let ghost m = map@;
    let ghost cells = area.cells();
    let ghost f = mark_change(require_lod_updates);
    let ghost fresh = |p: Vector3i| newly_needs_lod(m, p);
    let mut r: Vec<Vector3i> = Vec::new();
    let n: u128 = area.cell_count();
    let mut i: u128 = 0;
    proof {
        area.lemma_cells();
        voxel_data_map::lemma_changed_start(m, cells, f);
        collections::lemma_filter_none(cells, fresh);
    }
    while i < n
        invariant
            i <= n,
            n == cells.len(),
            cells == area.cells(),
            cells.no_duplicates(),
            area.representable(),
            map.wf(),
            f == mark_change(require_lod_updates),
            fresh == (|p: Vector3i| newly_needs_lod(m, p)),
            map@ == m.changed(cells.take(i as int), f),
            r@ == if require_lod_updates {
                cells.take(i as int).filter(fresh)
            } else {
                Seq::empty()
            },
        decreases n - i,
    {
        let p = area.cell(i);
        proof {
            voxel_data_map::lemma_changed_step(m, cells, f, i as int);
            voxel_data_map::lemma_changed_same(map@, p);
            collections::lemma_filter_take(cells, fresh, i as int);
        }
        match map.get_block_mut(p) {
            Some(block) => {
                if block.has_voxels() {
                    block.set_modified(true);
                    block.set_edited(true);
                    if require_lod_updates && !block.needs_lodding() {
                        block.set_needs_lodding(true);
                        r.push(p);
                    }
                }
            },
            None => {},
        }
        i = i + 1;
    }
    assert(cells.take(n as int) =~= cells);
    r
}

/// A copy of a block, viewers included.
pub fn clone_block(block: &VoxelDataBlock) -> (copy: VoxelDataBlock)
    requires
        block.wf(),
    ensures
        copy.wf(),
        copy@ == block@,
{
    let mut copy = if block.has_voxels() {
        VoxelDataBlock::with_voxels(block.voxels().copy_to_owned(), block.lod_index())
    } else {
        VoxelDataBlock::empty(block.lod_index())
    };
    copy.set_modified(block.is_modified());
    copy.set_edited(block.is_edited());
    copy.set_needs_lodding(block.needs_lodding());
    copy.set_viewers(block.viewers());
    assert(copy@ =~= block@);
    copy
}

/// What viewing the blocks of a box came upon: positions without a block,
/// positions with one, and copies of those, each in ZXY order.
pub struct ViewOutcome {
    pub missing: Vec<Vector3i>,
    pub found_positions: Vec<Vector3i>,
    pub found_blocks: Vec<VoxelDataBlock>,
}

impl ViewOutcome {
    /// Nothing yet.
    pub fn new() -> (v: ViewOutcome)
        ensures
            v.blank(),
    {
        ViewOutcome {
            missing: Vec::new(),
            found_positions: Vec::new(),
            found_blocks: Vec::new(),
        }
    }

    /// Nothing yet.
    pub open spec fn blank(self) -> bool {
        &&& self.missing@ == Seq::<Vector3i>::empty()
        &&& self.found_positions@ == Seq::<Vector3i>::empty()
        &&& self.found_blocks@ == Seq::<VoxelDataBlock>::empty()
    }

    /// Asks for room for `n` entries in each list. There is always room for
    /// none.
    pub fn try_reserve(&mut self, n: usize) -> (reserved: bool)
        requires
            old(self).blank(),
        ensures
            final(self).blank(),
            n == 0 ==> reserved,
    {
        n == 0 || (self.missing.try_reserve(n).is_ok()
            && self.found_positions.try_reserve(n).is_ok()
            && self.found_blocks.try_reserve(n).is_ok())
    }
}

/// Adds a viewer to every block of a box. Copies of the blocks are only made if
/// `copy_blocks` says so.
pub fn view_blocks(map: &mut VoxelDataMap, area: Box3i, copy_blocks: bool) -> (r: ViewOutcome)
    requires
        old(map).wf(),
        area.representable(),
    ensures
        final(map).wf(),
        view_blocks_outcome(old(map)@, area.cells(), copy_blocks, r, final(map)@),
{
    view_blocks_into(map, area, copy_blocks, ViewOutcome::new())
}

/// What viewing the listed cells comes upon, and what becomes of the map.
pub open spec fn view_blocks_outcome(
    m: MapModel,
    cells: Seq<Vector3i>,
    copy_blocks: bool,
    r: ViewOutcome,
    after: MapModel,
) -> bool {
    &&& after == m.changed(cells, view_change())
    &&& r.missing@ == cells.filter(|p: Vector3i| !m.has(p))
    &&& r.found_positions@ == cells.filter(|p: Vector3i| m.has(p))
    &&& blocks_wf(r.found_blocks@)
    &&& blocks_of(r.found_blocks@) == if copy_blocks {
        cells.filter(|p: Vector3i| m.has(p)).map_values(|p: Vector3i| viewed(m.blocks[p]))
    } else {
        Seq::empty()
    }
}

/// `view_blocks`, with lists in which room may have been reserved.
pub fn view_blocks_into(
    map: &mut VoxelDataMap,
    area: Box3i,
    copy_blocks: bool,
    lists: ViewOutcome,
) -> (r: ViewOutcome)
    requires
        old(map).wf(),
        area.representable(),
        lists.blank(),
    ensures
        final(map).wf(),
        view_blocks_outcome(old(map)@, area.cells(), copy_blocks, r, final(map)@),
{
    let ghost m = map@;
    let ghost cells = area.cells();
    let ghost f = view_change();
    let ghost absent = |p: Vector3i| !m.has(p);
    let ghost present = |p: Vector3i| m.has(p);
    let ghost seen = |p: Vector3i| viewed(m.blocks[p]);
    let mut missing = lists.missing;
    let mut found_positions = lists.found_positions;
    let mut found_blocks = lists.found_blocks;
    let n: u128 = area.cell_count();
    let mut i: u128 = 0;
    proof {
        area.lemma_cells();
        voxel_data_map::lemma_changed_start(m, cells, f);
        collections::lemma_filter_none(cells, absent);
        collections::lemma_filter_none(cells, present);
        assert(blocks_of(found_blocks@) =~= Seq::empty());
        assert(cells.take(0).filter(present).map_values(seen) =~= Seq::empty());
    }
    while i < n
        invariant
            i <= n,
            n == cells.len(),
            cells == area.cells(),
            cells.no_duplicates(),
            area.representable(),
            map.wf(),
            f == view_change(),
            absent == (|p: Vector3i| !m.has(p)),
            present == (|p: Vector3i| m.has(p)),
            seen == (|p: Vector3i| viewed(m.blocks[p])),
            map@ == m.changed(cells.take(i as int), f),
            missing@ == cells.take(i as int).filter(absent),
            found_positions@ == cells.take(i as int).filter(present),
            blocks_wf(found_blocks@),
            blocks_of(found_blocks@) == if copy_blocks {
                cells.take(i as int).filter(present).map_values(seen)
            } else {
                Seq::empty()
            },
        decreases n - i,
    {
        let p = area.cell(i);
        proof {
            voxel_data_map::lemma_changed_step(m, cells, f, i as int);
            voxel_data_map::lemma_changed_same(map@, p);
            collections::lemma_filter_take(cells, absent, i as int);
            collections::lemma_filter_take(cells, present, i as int);
        }
        match map.get_block_mut(p) {
            Some(block) => {
                block.add_viewer();
                if copy_blocks {
                    let ghost before = found_blocks@;
                    found_blocks.push(clone_block(block));
                    proof {
                        assert(blocks_of(found_blocks@) =~= blocks_of(before).push(seen(p)));
                        assert(cells.take(i + 1).filter(present).map_values(seen)
                            =~= cells.take(i as int).filter(present).map_values(seen).push(
                            seen(p),
                        ));
                    }
                }
                found_positions.push(p);
            },
            None => {
                missing.push(p);
            },
        }
        i = i + 1;
    }
    assert(cells.take(n as int) =~= cells);
    ViewOutcome { missing, found_positions, found_blocks }
}

/// What releasing the blocks of a box came upon: positions whose block is gone,
/// positions without a block, and what has to be saved, each in ZXY order.
pub struct UnviewOutcome {
    pub removed: Vec<Vector3i>,
    pub missing: Vec<Vector3i>,
    pub saves: Vec<BlockToSave>,
}

/// The block at `p` loses its last viewer.
pub open spec fn loses_last_viewer(m: MapModel, p: Vector3i) -> bool {
    m.has(p) && m.blocks[p].viewers <= 1
}

/// What has to be saved of the blocks of `cells` that lose their last viewer.
pub open spec fn unview_saves(m: MapModel, cells: Seq<Vector3i>, lod_index: u8) -> Seq<SaveModel> {
    cells.filter(|p: Vector3i| loses_last_viewer(m, p) && modified_at(m, p)).map_values(
        |p: Vector3i| save_of(m, p, lod_index),
    )
}

/// What has to be saved of the blocks of `cells` when they are unloaded.
pub open spec fn unload_saves(m: MapModel, cells: Seq<Vector3i>, lod_index: u8) -> Seq<SaveModel> {
    cells.filter(|p: Vector3i| modified_at(m, p)).map_values(
        |p: Vector3i| save_of(m, p, lod_index),
    )
}

/// Takes a viewer from every block of a box. A block without viewers goes; what
/// was modified is kept for saving if `collect_modified` says so.
pub fn unview_blocks(
    map: &mut VoxelDataMap,
    area: Box3i,
    lod_index: u8,
    collect_modified: bool,
) -> (r: UnviewOutcome)
    requires
        old(map).wf(),
        area.representable(),
    ensures
        final(map).wf(),
        final(map)@ == old(map)@.changed(area.cells(), unview_change()),
        r.removed@ == area.cells().filter(|p: Vector3i| loses_last_viewer(old(map)@, p)),
        r.missing@ == area.cells().filter(|p: Vector3i| !old(map)@.has(p)),
        saves_wf(r.saves@),
        saves_of(r.saves@) == if collect_modified {
            unview_saves(old(map)@, area.cells(), lod_index)
        } else {
            Seq::empty()
        },
{
    let ghost m = map@;
    let ghost cells = area.cells();
    let ghost f = unview_change();
    let ghost absent = |p: Vector3i| !m.has(p);
    let ghost gone = |p: Vector3i| loses_last_viewer(m, p);
    let ghost kept = |p: Vector3i| loses_last_viewer(m, p) && modified_at(m, p);
    let ghost save = |p: Vector3i| save_of(m, p, lod_index);
    let mut removed: Vec<Vector3i> = Vec::new();
    let mut missing: Vec<Vector3i> = Vec::new();
    let mut saves: Vec<BlockToSave> = Vec::new();
    let n: u128 = area.cell_count();
    let mut i: u128 = 0;
    proof {
        area.lemma_cells();
        voxel_data_map::lemma_changed_start(m, cells, f);
        collections::lemma_filter_none(cells, absent);
        collections::lemma_filter_none(cells, gone);
        collections::lemma_filter_none(cells, kept);
        assert(saves_of(saves@) =~= Seq::empty());
        assert(cells.take(0).filter(kept).map_values(save) =~= Seq::empty());
    }
    while i < n
        invariant
            i <= n,
            n == cells.len(),
            cells == area.cells(),
            cells.no_duplicates(),
            area.representable(),
            map.wf(),
            f == unview_change(),
            absent == (|p: Vector3i| !m.has(p)),
            gone == (|p: Vector3i| loses_last_viewer(m, p)),
            kept == (|p: Vector3i| loses_last_viewer(m, p) && modified_at(m, p)),
            save == (|p: Vector3i| save_of(m, p, lod_index)),
            map@ == m.changed(cells.take(i as int), f),
            missing@ == cells.take(i as int).filter(absent),
            removed@ == cells.take(i as int).filter(gone),
            saves_wf(saves@),
            saves_of(saves@) == if collect_modified {
                cells.take(i as int).filter(kept).map_values(save)
            } else {
                Seq::empty()
            },
        decreases n - i,
    {
        let p = area.cell(i);
        let ghost now = map@;
        proof {
            voxel_data_map::lemma_changed_step(m, cells, f, i as int);
            voxel_data_map::lemma_changed_same(map@, p);
            collections::lemma_filter_take(cells, absent, i as int);
            collections::lemma_filter_take(cells, gone, i as int);
            collections::lemma_filter_take(cells, kept, i as int);
        }
        let last = match map.get_block_mut(p) {
            Some(block) => {
                block.remove_viewer();
                Some(block.viewers() == 0)
            },
            None => None,
        };
        match last {
            Some(true) => {
                match map.remove_block(p) {
                    Some(block) => {
                        if collect_modified && block.is_modified() {
                            let ghost before = saves@;
                            saves.push(
                                BlockToSave {
                                    voxels: block.into_voxels(),
                                    position: p,
                                    lod_index,
                                    block_revision: 0,
                                },
                            );
                            proof {
                                assert(saves_of(saves@) =~= saves_of(before).push(save(p)));
                                assert(cells.take(i + 1).filter(kept).map_values(save)
                                    =~= cells.take(i as int).filter(kept).map_values(save).push(
                                    save(p),
                                ));
                            }
                        }
                        removed.push(p);
                    },
                    None => {},
                }
                assert(map@.blocks =~= now.without_block(p).blocks);
            },
            Some(false) => {},
            None => {
                missing.push(p);
            },
        }
        i = i + 1;
    }
    assert(cells.take(n as int) =~= cells);
    UnviewOutcome { removed, missing, saves }
}

/// Takes every block of a box out of the map. What was modified is kept for
/// saving if `collect_modified` says so.
pub fn unload_blocks(
    map: &mut VoxelDataMap,
    area: Box3i,
    lod_index: u8,
    collect_modified: bool,
) -> (saves: Vec<BlockToSave>)
    requires
        old(map).wf(),
        area.representable(),
    ensures
        final(map).wf(),
        final(map)@ == old(map)@.changed(area.cells(), unload_change()),
        saves_wf(saves@),
        saves_of(saves@) == if collect_modified {
            unload_saves(old(map)@, area.cells(), lod_index)
        } else {
            Seq::empty()
        },
{
    let ghost m = map@;
    let ghost cells = area.cells();
    let ghost f = unload_change();
    let ghost kept = |p: Vector3i| modified_at(m, p);
    let ghost save = |p: Vector3i| save_of(m, p, lod_index);
    let mut saves: Vec<BlockToSave> = Vec::new();
    let n: u128 = area.cell_count();
    let mut i: u128 = 0;
    proof {
        area.lemma_cells();
        voxel_data_map::lemma_changed_start(m, cells, f);
        collections::lemma_filter_none(cells, kept);
        assert(saves_of(saves@) =~= Seq::empty());
        assert(cells.take(0).filter(kept).map_values(save) =~= Seq::empty());
    }
    while i < n
        invariant
            i <= n,
            n == cells.len(),
            cells == area.cells(),
            cells.no_duplicates(),
            area.representable(),
            map.wf(),
            f == unload_change(),
            kept == (|p: Vector3i| modified_at(m, p)),
            save == (|p: Vector3i| save_of(m, p, lod_index)),
            map@ == m.changed(cells.take(i as int), f),
            saves_wf(saves@),
            saves_of(saves@) == if collect_modified {
                cells.take(i as int).filter(kept).map_values(save)
            } else {
                Seq::empty()
            },
        decreases n - i,
    {
        let p = area.cell(i);
        proof {
            voxel_data_map::lemma_changed_step(m, cells, f, i as int);
            collections::lemma_filter_take(cells, kept, i as int);
        }
        match map.remove_block(p) {
            Some(block) => {
                if collect_modified && block.is_modified() {
                    let ghost before = saves@;
                    saves.push(
                        BlockToSave {
                            voxels: block.into_voxels(),
                            position: p,
                            lod_index,
                            block_revision: 0,
                        },
                    );
                    proof {
                        assert(saves_of(saves@) =~= saves_of(before).push(save(p)));
                        assert(cells.take(i + 1).filter(kept).map_values(save) =~= cells.take(
                            i as int,
                        ).filter(kept).map_values(save).push(save(p)));
                    }
                }
            },
            None => {},
        }
        i = i + 1;
    }
    assert(cells.take(n as int) =~= cells);
    saves
}

/// Takes the modification of one block: a copy of its voxels for saving, if it
/// was modified, and the block is then clean.
pub fn consume_modification(map: &mut VoxelDataMap, p: Vector3i, lod_index: u8) -> (r: Option<
    BlockToSave,
>)
    requires
        old(map).wf(),
    ensures
        final(map).wf(),
        r is Some <==> modified_at(old(map)@, p),
        r matches Some(s) ==> s.wf() && s@ == save_of(old(map)@, p, lod_index),
        final(map)@ == if modified_at(old(map)@, p) {
            old(map)@.with_block(p, BlockModel { modified: false, ..old(map)@.blocks[p] })
        } else {
            old(map)@
        },
{
    proof {
        voxel_data_map::lemma_changed_same(map@, p);
    }
    match map.get_block_mut(p) {
        Some(block) => {
            if !block.is_modified() {
                return None;
            }
            let voxels = if block.has_voxels() {
                Some(block.voxels().copy_to_owned())
            } else {
                None
            };
            block.set_modified(false);
            Some(BlockToSave { voxels, position: p, lod_index, block_revision: 0 })
        },
        None => None,
    }
}

/// `saves` holds exactly what has to be saved of the modified blocks of a map,
/// each once, in some order.
pub open spec fn saves_all(m: MapModel, lod_index: u8, saves: Seq<SaveModel>) -> bool {
    exists|order: Seq<Vector3i>|
        #![trigger order.no_duplicates()]
        order.no_duplicates() && (forall|p: Vector3i| #[trigger]
            order.contains(p) <==> modified_at(m, p)) && saves == order.map_values(
            |p: Vector3i| save_of(m, p, lod_index),
        )
}

/// Takes the modifications of all blocks of a map, in no particular order.
pub fn consume_modifications(map: &mut VoxelDataMap, lod_index: u8) -> (saves: Vec<BlockToSave>)
    requires
        old(map).wf(),
    ensures
        final(map).wf(),
        final(map)@ == (MapModel {
            blocks: old(map)@.blocks.map_values(
                |b: BlockModel| BlockModel { modified: false, ..b },
            ),
            ..old(map)@
        }),
        saves_wf(saves@),
        saves_all(old(map)@, lod_index, saves_of(saves@)),
{
    let ghost m = map@;
    let ghost f = clean_change();
    let ghost kept = |p: Vector3i| modified_at(m, p);
    let ghost save = |p: Vector3i| save_of(m, p, lod_index);
    let positions = map.block_positions();
    let ghost cells = positions@;
    let mut saves: Vec<BlockToSave> = Vec::new();
    let mut i: usize = 0;
    proof {
        voxel_data_map::lemma_changed_start(m, cells, f);
        collections::lemma_filter_none(cells, kept);
        assert(saves_of(saves@) =~= Seq::empty());
        assert(cells.take(0).filter(kept).map_values(save) =~= Seq::empty());
    }
    while i < positions.len()
        invariant
            i <= positions@.len(),
            cells == positions@,
            cells.no_duplicates(),
            cells.to_set() == m.blocks.dom(),
            map.wf(),
            f == clean_change(),
            kept == (|p: Vector3i| modified_at(m, p)),
            save == (|p: Vector3i| save_of(m, p, lod_index)),
            map@ == m.changed(cells.take(i as int), f),
            saves_wf(saves@),
            saves_of(saves@) == cells.take(i as int).filter(kept).map_values(save),
        decreases positions@.len() - i,
    {
        let p = positions[i];
        proof {
            assert(cells.to_set().contains(p));
            voxel_data_map::lemma_changed_step(m, cells, f, i as int);
            voxel_data_map::lemma_changed_same(map@, p);
            collections::lemma_filter_take(cells, kept, i as int);
            assert(map@.blocks.get(p) == m.blocks.get(p));
        }
        match consume_modification(map, p, lod_index) {
            Some(s) => {
                let ghost before = saves@;
                saves.push(s);
                proof {
                    assert(saves_of(saves@) =~= saves_of(before).push(save(p)));
                    assert(cells.take(i + 1).filter(kept).map_values(save) =~= cells.take(
                        i as int,
                    ).filter(kept).map_values(save).push(save(p)));
                }
            },
            None => {
                assert(m.blocks[p] =~= BlockModel { modified: false, ..m.blocks[p] });
            },
        }
        i = i + 1;
    }
    proof {
        assert(cells.take(i as int) =~= cells);
        let order = cells.filter(kept);
        collections::lemma_filter_facts(cells, kept);
        assert forall|p: Vector3i| #[trigger] order.contains(p) <==> modified_at(m, p) by {
            if modified_at(m, p) {
                assert(cells.to_set().contains(p));
            }
        }
        assert(saves_all(m, lod_index, saves_of(saves@)));
        assert(map@.blocks =~= m.blocks.map_values(
            |b: BlockModel| BlockModel { modified: false, ..b },
        )) by {
            assert forall|p: Vector3i| cells.contains(p) == m.blocks.contains_key(p) by {
                assert(cells.to_set().contains(p) == cells.contains(p));
            }
        }
    }
    saves
}

} // verus!
