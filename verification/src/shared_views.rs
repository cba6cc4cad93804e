//! Viewers of the blocks of shared voxel data.

use crate::boxes;
use crate::boxes::Box3i;
use crate::collections;
use crate::map_areas;
use crate::map_areas::ViewOutcome;
use crate::math::Vector3i;
use crate::mutation_error::SharedVoxelDataMutationError;
use crate::revision;
use crate::shared_data::{SharedModel, SharedVoxelData};
use crate::shared_edits;
use crate::voxel_data;
use crate::voxel_data::{BlockToSave, SaveModel};
use crate::voxel_data_block::{BlockModel, VoxelDataBlock};
use crate::voxel_data_map;
use crate::voxel_data_map::{MapModel, VoxelDataMap};
use vstd::prelude::*;

verus! {

/// Which blocks of a box are looked at.
#[derive(Clone, Copy, Debug, PartialEq, Eq, Structural)]
pub enum ViewTarget {
    /// None: a corner has no representation.
    Nothing,
    /// No level holds these; they count as missing.
    Unseen(Box3i),
    /// These, at an existing level.
    Level(Box3i),
}

impl SharedModel {
    /// Which blocks of a box are looked at: those inside the bounds. Where the
    /// bounds cannot be counted in blocks of the level, the whole box is
    /// unseen; so is the part in bounds at a level that does not exist.
    pub open spec fn view_target(self, blocks_box: Box3i, l: int) -> ViewTarget {
        if !blocks_box.end().fits() {
            ViewTarget::Nothing
        } else if !boxes::lod_bounds_exist(self.data.bounds, l) {
            ViewTarget::Unseen(blocks_box)
        } else {
            let clipped = boxes::intersection(
                blocks_box,
                boxes::lod_bounds(self.data.bounds, l as nat),
            );
            if self.has_lod(l) {
                ViewTarget::Level(clipped)
            } else {
                ViewTarget::Unseen(clipped)
            }
        }
    }
}

impl ViewTarget {
    /// The cells looked at, at an existing level.
    pub open spec fn level_cells(self) -> Seq<Vector3i> {
        match self {
            ViewTarget::Level(b) => b.cells(),
            _ => Seq::empty(),
        }
    }

    /// The cells that count as missing though no level was looked at.
    pub open spec fn unseen_cells(self) -> Seq<Vector3i> {
        match self {
            ViewTarget::Unseen(b) => b.cells(),
            _ => Seq::empty(),
        }
    }

    /// All cells.
    pub open spec fn all_cells(self) -> Seq<Vector3i> {
        match self {
            ViewTarget::Nothing => Seq::empty(),
            ViewTarget::Unseen(b) => b.cells(),
            ViewTarget::Level(b) => b.cells(),
        }
    }
}

/// Why the block at `p` cannot get a viewer more.
pub open spec fn view_error(m: MapModel, l: int, p: Vector3i) -> Option<
    SharedVoxelDataMutationError,
> {
    if !m.has(p) {
        None
    } else if m.blocks[p].viewers == u32::MAX {
        Some(
            SharedVoxelDataMutationError::ViewerCountOverflow {
                position: p,
                lod_index: l as usize,
            },
        )
    } else if m.revision(p) == u64::MAX {
        Some(
            SharedVoxelDataMutationError::KeyRevisionOverflow {
                position: p,
                lod_index: l as usize,
            },
        )
    } else {
        None
    }
}

/// Why the block at `p` cannot lose a viewer.
pub open spec fn unview_error(m: MapModel, l: int, p: Vector3i) -> Option<
    SharedVoxelDataMutationError,
> {
    if !m.has(p) {
        None
    } else if m.blocks[p].viewers == 0 {
        Some(
            SharedVoxelDataMutationError::ViewerCountUnderflow {
                position: p,
                lod_index: l as usize,
            },
        )
    } else if m.revision(p) == u64::MAX {
        Some(
            SharedVoxelDataMutationError::KeyRevisionOverflow {
                position: p,
                lod_index: l as usize,
            },
        )
    } else {
        None
    }
}

/// Why a box cannot be viewed or released, where `error` says why one block
/// cannot, `listed` whether unseen cells are asked for, and `scratch` whether
/// there is room for the lists.
pub open spec fn area_refusal(
    s: SharedModel,
    blocks_box: Box3i,
    l: int,
    listed: bool,
    scratch: bool,
    error: spec_fn(Vector3i) -> Option<SharedVoxelDataMutationError>,
) -> Option<SharedVoxelDataMutationError> {
    let target = s.view_target(blocks_box, l);
    let full = target.all_cells().len() > usize::MAX || !scratch;
    match target {
        ViewTarget::Nothing => None,
        ViewTarget::Unseen(b) => if listed && full {
            Some(SharedVoxelDataMutationError::CapacityReservationFailed)
        } else {
            None
        },
        ViewTarget::Level(b) => if s.closed {
            Some(SharedVoxelDataMutationError::MutationAdmissionClosed)
        } else if !boxes::block_bounds_exist(b, l as nat) {
            Some(SharedVoxelDataMutationError::SpatialBoundsOverflow { lod_index: l as usize })
        } else if full {
            Some(SharedVoxelDataMutationError::CapacityReservationFailed)
        } else {
            collections::first_some(b.cells(), error)
        },
    }
}

/// One viewer less on every block. A block without viewers goes, unless it is
/// modified and nothing is saved.
pub open spec fn release_change(
    saving: bool,
) -> spec_fn(Vector3i, Option<BlockModel>) -> Option<BlockModel> {
    |p: Vector3i, o: Option<BlockModel>|
        match o {
            Some(b) => if b.viewers == 1 && (!b.modified || saving) {
                None
            } else {
                Some(BlockModel { viewers: (b.viewers - 1) as u32, ..b })
            },
            None => None,
        }
}

/// The block at `p` goes when it loses a viewer.
pub open spec fn release_removes(m: MapModel, saving: bool, p: Vector3i) -> bool {
    m.has(p) && m.blocks[p].viewers == 1 && (!m.blocks[p].modified || saving)
}

/// The block at `p` goes when it loses a viewer, and has to be saved.
pub open spec fn release_saves(m: MapModel, p: Vector3i) -> bool {
    m.has(p) && m.blocks[p].viewers == 1 && m.blocks[p].modified
}

/// What has to be saved of the block at `p`, with its revision.
pub open spec fn revisioned_save(m: MapModel, l: int, p: Vector3i) -> SaveModel {
    SaveModel {
        voxels: m.blocks[p].voxels,
        position: p,
        lod_index: l as u8,
        block_revision: m.revision(p),
    }
}

/// The data after the blocks of a box have been changed by `f`; every block
/// that was there gets one revision more.
pub open spec fn area_changed(
    s: SharedModel,
    blocks_box: Box3i,
    l: int,
    f: spec_fn(Vector3i, Option<BlockModel>) -> Option<BlockModel>,
) -> SharedModel {
    match s.view_target(blocks_box, l) {
        ViewTarget::Level(b) => {
            let m = s.data.lods[l];
            s.with_lod(
                l,
                m.changed(b.cells(), f).advanced(b.cells().filter(|p: Vector3i| m.has(p))),
            )
        },
        _ => s,
    }
}

/// The positions that viewing or releasing a box reports as missing.
pub open spec fn area_missing(s: SharedModel, blocks_box: Box3i, l: int) -> Seq<Vector3i> {
    let target = s.view_target(blocks_box, l);
    target.unseen_cells() + target.level_cells().filter(
        |p: Vector3i| !s.data.has_block(p, l),
    )
}

/// The positions with a block that viewing or releasing a box comes upon.
pub open spec fn area_found(s: SharedModel, blocks_box: Box3i, l: int) -> Seq<Vector3i> {
    s.view_target(blocks_box, l).level_cells().filter(|p: Vector3i| s.data.has_block(p, l))
}

/// The positions whose block goes when a box is released, `saving` telling
/// whether modified blocks can be saved.
pub open spec fn area_removed(s: SharedModel, blocks_box: Box3i, l: int, saving: bool) -> Seq<
    Vector3i,
> {
    area_found(s, blocks_box, l).filter(
        |p: Vector3i| release_removes(s.data.lods[l], saving, p),
    )
}

/// What has to be saved when a box is released.
pub open spec fn area_saves(s: SharedModel, blocks_box: Box3i, l: int) -> Seq<SaveModel> {
    area_found(s, blocks_box, l).filter(
        |p: Vector3i| release_saves(s.data.lods[l], p),
    ).map_values(|p: Vector3i| revisioned_save(s.data.lods[l], l, p))
}

/// A list with room for more entries, and whether there is room. The list is
/// the same either way. There is always room for none, or where there is no list.
fn reserve_output<'a, T>(output: Option<&'a mut Vec<T>>, additional: usize) -> (r: (
    Option<&'a mut Vec<T>>,
    bool,
))
    ensures
        match output {
            Some(v) => r.0 matches Some(w) && w@ == v@ && final(w)@ == final(v)@,
            None => r.0 is None,
        },
        output is None || additional == 0 ==> r.1,
{
    match output {
        Some(v) => {
            let reserved = additional == 0 || v.try_reserve(additional).is_ok();
            (Some(v), reserved)
        },
        None => (None, true),
    }
}

/// Why a block cannot get a viewer more, or lose one.
pub open spec fn area_error(m: MapModel, l: int, view: bool) -> spec_fn(Vector3i) -> Option<
    SharedVoxelDataMutationError,
> {
    |p: Vector3i|
        if view {
            view_error(m, l, p)
        } else {
            unview_error(m, l, p)
        }
}

/// Number of cells of a box, if it is not too large.
pub fn checked_box_cell_count(b: Box3i) -> (n: Option<usize>)
    ensures
        n is Some <==> b.cells().len() <= usize::MAX,
        n matches Some(k) ==> k == b.cells().len(),
{
    let n: u128 = b.cell_count();
    if n <= usize::MAX as u128 {
        Some(n as usize)
    } else {
        None
    }
}

/// The first reason why a block of a box cannot get a viewer more, or lose one.
fn first_area_error(map: &VoxelDataMap, area: Box3i, lod_index: usize, view: bool) -> (r: Option<
    SharedVoxelDataMutationError,
>)
    requires
        map.wf(),
        area.representable(),
    ensures
        r == collections::first_some(area.cells(), area_error(map@, lod_index as int, view)),
{
    let ghost cells = area.cells();
    let ghost f = area_error(map@, lod_index as int, view);
    let n: u128 = area.cell_count();
    let mut i: u128 = 0;
    assert(collections::first_some(cells.take(0), f) is None);
    while i < n
        invariant
            i <= n,
            n == cells.len(),
            cells == area.cells(),
            area.representable(),
            map.wf(),
            f == area_error(map@, lod_index as int, view),
            collections::first_some(cells.take(i as int), f) is None,
        decreases n - i,
    {
        let p = area.cell(i);
        proof {
            collections::lemma_first_some_take(cells, f, i as int);
        }
        match map.get_block(p) {
            Some(block) => {
                let viewers: u32 = block.viewers();
                let error = if view && viewers == u32::MAX {
                    Some(
                        SharedVoxelDataMutationError::ViewerCountOverflow {
                            position: p,
                            lod_index,
                        },
                    )
                } else if !view && viewers == 0 {
                    Some(
                        SharedVoxelDataMutationError::ViewerCountUnderflow {
                            position: p,
                            lod_index,
                        },
                    )
                } else if map.key_revision(p) == u64::MAX {
                    Some(
                        SharedVoxelDataMutationError::KeyRevisionOverflow {
                            position: p,
                            lod_index,
                        },
                    )
                } else {
                    None
                };
                if error.is_some() {
                    proof {
                        assert(f(p) == error);
                        collections::lemma_first_some_prefix(cells, f, i + 1);
                    }
                    return error;
                }
            },
            None => {},
        }
        assert(f(p) is None);
        i = i + 1;
    }
    assert(cells.take(n as int) =~= cells);
    None
}

/// What releasing the blocks of a box comes upon: positions with a block,
/// positions whose block is gone, positions without a block, and what has to be
/// saved, each in ZXY order.
pub struct ReleaseOutcome {
    pub touched: Vec<Vector3i>,
    pub removed: Vec<Vector3i>,
    pub missing: Vec<Vector3i>,
    pub saves: Vec<BlockToSave>,
}

impl ReleaseOutcome {
    /// Nothing yet.
    pub fn new() -> (v: ReleaseOutcome)
        ensures
            v.blank(),
    {
        ReleaseOutcome {
            touched: Vec::new(),
            removed: Vec::new(),
            missing: Vec::new(),
            saves: Vec::new(),
        }
    }

    /// Nothing yet.
    pub open spec fn blank(self) -> bool {
        &&& self.touched@ == Seq::<Vector3i>::empty()
        &&& self.removed@ == Seq::<Vector3i>::empty()
        &&& self.missing@ == Seq::<Vector3i>::empty()
        &&& self.saves@ == Seq::<BlockToSave>::empty()
    }

    /// Asks for room for `n` entries in each list of positions. There is always
    /// room for none.
    pub fn try_reserve(&mut self, n: usize) -> (reserved: bool)
        requires
            old(self).blank(),
        ensures
            final(self).blank(),
            n == 0 ==> reserved,
    {
        n == 0 || (self.touched.try_reserve(n).is_ok() && self.removed.try_reserve(n).is_ok()
            && self.missing.try_reserve(n).is_ok())
    }
}

/// Takes a viewer from every block of a box.
fn release_blocks(
    map: &mut VoxelDataMap,
    area: Box3i,
    lod_index: usize,
    saving: bool,
    lists: ReleaseOutcome,
) -> (r: ReleaseOutcome)
    requires
        old(map).wf(),
        area.representable(),
        lod_index < 256,
        lists.blank(),
        forall|p: Vector3i|
            area.cells().contains(p) && #[trigger] old(map)@.has(p)
                ==> old(map)@.blocks[p].viewers > 0,
    ensures
        final(map).wf(),
        final(map)@ == old(map)@.changed(area.cells(), release_change(saving)),
        r.touched@ == area.cells().filter(|p: Vector3i| old(map)@.has(p)),
        r.removed@ == area.cells().filter(|p: Vector3i| release_removes(old(map)@, saving, p)),
        r.missing@ == area.cells().filter(|p: Vector3i| !old(map)@.has(p)),
        map_areas::saves_wf(r.saves@),
        map_areas::saves_of(r.saves@) == if saving {
            area.cells().filter(|p: Vector3i| release_saves(old(map)@, p)).map_values(
                |p: Vector3i| revisioned_save(old(map)@, lod_index as int, p),
            )
        } else {
            Seq::empty()
        },
{
    let ghost m = map@;
    let ghost l = lod_index as int;
    let ghost cells = area.cells();
    let ghost f = release_change(saving);
    let ghost present = |p: Vector3i| m.has(p);
    let ghost absent = |p: Vector3i| !m.has(p);
    let ghost gone = |p: Vector3i| release_removes(m, saving, p);
    let ghost kept = |p: Vector3i| release_saves(m, p);
    let ghost save = |p: Vector3i| revisioned_save(m, l, p);
    let mut touched = lists.touched;
    let mut removed = lists.removed;
    let mut missing = lists.missing;
    let mut saves = lists.saves;
    let n: u128 = area.cell_count();
    let mut i: u128 = 0;
    proof {
        area.lemma_cells();
        voxel_data_map::lemma_changed_start(m, cells, f);
        collections::lemma_filter_none(cells, present);
        collections::lemma_filter_none(cells, absent);
        collections::lemma_filter_none(cells, gone);
        collections::lemma_filter_none(cells, kept);
        assert(map_areas::saves_of(saves@) =~= Seq::empty());
        assert(cells.take(0).filter(kept).map_values(save) =~= Seq::empty());
    }
    while i < n
        invariant
            i <= n,
            n == cells.len(),
            cells == area.cells(),
            cells.no_duplicates(),
            area.representable(),
            lod_index < 256,
            l == lod_index,
            map.wf(),
            f == release_change(saving),
            present == (|p: Vector3i| m.has(p)),
            absent == (|p: Vector3i| !m.has(p)),
            gone == (|p: Vector3i| release_removes(m, saving, p)),
            kept == (|p: Vector3i| release_saves(m, p)),
            save == (|p: Vector3i| revisioned_save(m, l, p)),
            forall|p: Vector3i|
                cells.contains(p) && #[trigger] m.has(p) ==> m.blocks[p].viewers > 0,
            map@ == m.changed(cells.take(i as int), f),
            touched@ == cells.take(i as int).filter(present),
            missing@ == cells.take(i as int).filter(absent),
            removed@ == cells.take(i as int).filter(gone),
            map_areas::saves_wf(saves@),
            map_areas::saves_of(saves@) == if saving {
                cells.take(i as int).filter(kept).map_values(save)
            } else {
                Seq::empty()
            },
        decreases n - i,
    {
        let p = area.cell(i);
        let ghost now = map@;
        proof {
            assert(cells[i as int] == p);
            assert(cells.contains(p));
            voxel_data_map::lemma_changed_step(m, cells, f, i as int);
            voxel_data_map::lemma_changed_same(map@, p);
            collections::lemma_filter_take(cells, present, i as int);
            collections::lemma_filter_take(cells, absent, i as int);
            collections::lemma_filter_take(cells, gone, i as int);
            collections::lemma_filter_take(cells, kept, i as int);
            assert(now.blocks.get(p) == m.blocks.get(p));
            assert(now.has(p) == m.has(p));
        }
        let goes = match map.get_block(p) {
            Some(block) => {
                assert(m.has(p));
                Some(block.viewers() == 1 && (!block.is_modified() || saving))
            },
            None => None,
        };
        match goes {
            Some(true) => {
                let block_revision: u64 = map.key_revision(p);
                match map.remove_block(p) {
                    Some(block) => {
                        if block.is_modified() {
                            let ghost before = saves@;
                            saves.push(
                                BlockToSave {
                                    voxels: block.into_voxels(),
                                    position: p,
                                    lod_index: lod_index as u8,
                                    block_revision,
                                },
                            );
                            proof {
                                assert(map_areas::saves_of(saves@) =~= map_areas::saves_of(
                                    before,
                                ).push(save(p)));
                                assert(cells.take(i + 1).filter(kept).map_values(save)
                                    =~= cells.take(i as int).filter(kept).map_values(save).push(
                                    save(p),
                                ));
                            }
                        }
                    },
                    None => {},
                }
                removed.push(p);
                touched.push(p);
            },
            Some(false) => {
                match map.get_block_mut(p) {
                    Some(block) => {
                        let viewers: u32 = block.viewers();
                        block.set_viewers(viewers - 1);
                    },
                    None => {},
                }
                touched.push(p);
            },
            None => {
                missing.push(p);
            },
        }
        i = i + 1;
    }
    assert(cells.take(n as int) =~= cells);
    ReleaseOutcome { touched, removed, missing, saves }
}

/// What is appended to an output list: `items` if the call succeeds.
pub open spec fn appended<T, A>(r: Result<A, SharedVoxelDataMutationError>, items: Seq<T>) -> Seq<T> {
    if r is Ok {
        items
    } else {
        Seq::empty()
    }
}

/// Appends what a level had to report.
fn append_to<T>(output: Option<&mut Vec<T>>, items: Vec<T>)
    ensures
        match output {
            Some(v) => final(v)@ == v@ + items@,
            None => true,
        },
{
    match output {
        Some(v) => {
            let mut items = items;
            v.append(&mut items);
        },
        None => {},
    }
}

impl SharedVoxelData {
    /// Which blocks of a box are looked at.
    pub fn view_target(&self, blocks_box: Box3i, lod_index: usize) -> (t: ViewTarget)
        requires
            self.wf(),
        ensures
            t == self@.view_target(blocks_box, lod_index as int),
            t matches ViewTarget::Level(b) ==> b.representable(),
            t matches ViewTarget::Unseen(b) ==> b.representable(),
    {
        proof {
            self.lemma_wf();
        }
        let bounds_in_blocks = match boxes::bounds_in_lod_blocks(self.bounds(), lod_index) {
            Ok(b) => b,
            Err(_) => {
                return match boxes::checked_box_intersection(blocks_box, blocks_box) {
                    Ok(_) => ViewTarget::Unseen(blocks_box),
                    Err(_) => ViewTarget::Nothing,
                };
            },
        };
        proof {
            boxes::lemma_lod_bounds(self@.data.bounds, lod_index as nat);
        }
        match boxes::checked_box_intersection(blocks_box, bounds_in_blocks) {
            Ok(clipped) => {
                proof {
                    boxes::lemma_intersection(blocks_box, bounds_in_blocks);
                }
                if lod_index < self.lod_count() {
                    ViewTarget::Level(clipped)
                } else {
                    ViewTarget::Unseen(clipped)
                }
            },
            Err(_) => ViewTarget::Nothing,
        }
    }

    /// Why a box cannot be viewed or released.
    fn refuse_area(
        &self,
        target: ViewTarget,
        blocks_box: Box3i,
        lod_index: usize,
        listed: bool,
        scratch: bool,
        view: bool,
    ) -> (r: Option<SharedVoxelDataMutationError>)
        requires
            self.wf(),
            target == self@.view_target(blocks_box, lod_index as int),
            target matches ViewTarget::Level(b) ==> b.representable(),
        ensures
            r == area_refusal(
                self@,
                blocks_box,
                lod_index as int,
                listed,
                scratch,
                area_error(self@.data.lods[lod_index as int], lod_index as int, view),
            ),
    {
        proof {
            self.lemma_wf();
        }
        match target {
            ViewTarget::Nothing => None,
            ViewTarget::Unseen(b) => if listed && (checked_box_cell_count(b).is_none()
                || !scratch) {
                Some(SharedVoxelDataMutationError::CapacityReservationFailed)
            } else {
                None
            },
            ViewTarget::Level(b) => {
                if self.is_mutation_admission_closed() {
                    return Some(SharedVoxelDataMutationError::MutationAdmissionClosed);
                }
                if boxes::checked_lod_block_bounds(b, lod_index).is_none() {
                    return Some(SharedVoxelDataMutationError::SpatialBoundsOverflow { lod_index });
                }
                if checked_box_cell_count(b).is_none() || !scratch {
                    return Some(SharedVoxelDataMutationError::CapacityReservationFailed);
                }
                first_area_error(self.lod(lod_index), b, lod_index, view)
            },
        }
    }

    /// `view_area`, where `scratch` says whether there is room for the lists and
    /// `live` whether there is room for everything else.
    pub fn view_area_reserved(
        &mut self,
        blocks_box: Box3i,
        lod_index: usize,
        missing_blocks: Option<&mut Vec<Vector3i>>,
        found_blocks_positions: Option<&mut Vec<Vector3i>>,
        found_blocks: Option<&mut Vec<VoxelDataBlock>>,
        lists: ViewOutcome,
        scratch: bool,
        live: bool,
    ) -> (r: Result<(), SharedVoxelDataMutationError>)
        requires
            old(self).wf(),
            lists.blank(),
            found_blocks matches Some(v) ==> map_areas::blocks_wf(v@),
        ensures
            final(self).wf(),
            view_outcome(
                old(self)@,
                blocks_box,
                lod_index as int,
                missing_blocks is Some,
                scratch,
                live,
                r,
                final(self)@,
            ),
            match missing_blocks {
                Some(v) => final(v)@ == v@ + appended(
                    r,
                    area_missing(old(self)@, blocks_box, lod_index as int),
                ),
                None => true,
            },
            match found_blocks_positions {
                Some(v) => final(v)@ == v@ + appended(
                    r,
                    area_found(old(self)@, blocks_box, lod_index as int),
                ),
                None => true,
            },
            match found_blocks {
                Some(v) => map_areas::blocks_wf(final(v)@) && map_areas::blocks_of(final(v)@)
                    == map_areas::blocks_of(v@) + appended(
                    r,
                    area_found(old(self)@, blocks_box, lod_index as int).map_values(
                        |p: Vector3i|
                            map_areas::viewed(old(self)@.data.lods[lod_index as int].blocks[p]),
                    ),
                ),
                None => true,
            },
    {
        let ghost before = self@;
        let ghost l = lod_index as int;
        let ghost m = before.data.lods[l];
        let ghost absent = |p: Vector3i| !before.data.has_block(p, l);
        let ghost present = |p: Vector3i| before.data.has_block(p, l);
        let ghost seen = |p: Vector3i| map_areas::viewed(m.blocks[p]);
        proof {
            self.lemma_wf();
            collections::lemma_filter_empty(absent);
            collections::lemma_filter_empty(present);
            assert(Seq::<Vector3i>::empty().map_values(seen) =~= Seq::empty());
            collections::lemma_add_empty::<BlockModel>();
            collections::lemma_add_empty::<Vector3i>();
        }
        let target = self.view_target(blocks_box, lod_index);
        match self.refuse_area(
            target,
            blocks_box,
            lod_index,
            missing_blocks.is_some(),
            scratch,
            true,
        ) {
            Some(e) => {
                return Err(e);
            },
            None => {},
        }
        match target {
            ViewTarget::Nothing => Ok(()),
            ViewTarget::Unseen(b) => {
                match missing_blocks {
                    Some(out) => {
                        voxel_data::extend_cells(out, b);
                    },
                    None => {},
                }
                Ok(())
            },
            ViewTarget::Level(b) => {
                if !live {
                    return Err(SharedVoxelDataMutationError::CapacityReservationFailed);
                }
                let ghost cells = b.cells();
                let ghost here = |p: Vector3i| m.has(p);
                let ghost nowhere = |p: Vector3i| !m.has(p);
                proof {
                    b.lemma_cells();
                    assert(present =~= here);
                    assert(absent =~= nowhere);
                    collections::lemma_first_some_facts(cells, area_error(m, l, true));
                    collections::lemma_filter_facts(cells, here);
                    assert(Seq::<Vector3i>::empty() + cells.filter(absent) =~= cells.filter(absent));
                }
                let copy_blocks = found_blocks.is_some();
                let map = self.lod_mut(lod_index);
                let r = map_areas::view_blocks_into(map, b, copy_blocks, lists);
                proof {
                    assert forall|k: int| 0 <= k < r.found_positions@.len() implies map@.revision(
                        #[trigger] r.found_positions@[k],
                    ) < u64::MAX by {
                        let p = r.found_positions@[k];
                        assert(cells.filter(here).contains(p));
                        assert(cells.contains(p));
                        let j = choose|j: int| 0 <= j < cells.len() && cells[j] == p;
                        assert(area_error(m, l, true)(cells[j]) is None);
                    }
                }
                revision::advance_revisions(map, &r.found_positions);
                append_to(missing_blocks, r.missing);
                append_to(found_blocks_positions, r.found_positions);
                proof {
                    lemma_append_blocks();
                }
                append_to(found_blocks, r.found_blocks);
                Ok(())
            },
        }
    }
}

/// The outcome of viewing a box.
pub open spec fn view_outcome(
    before: SharedModel,
    blocks_box: Box3i,
    l: int,
    listed: bool,
    scratch: bool,
    live: bool,
    r: Result<(), SharedVoxelDataMutationError>,
    after: SharedModel,
) -> bool {
    shared_edits::change_outcome(
        before,
        area_refusal(
            before,
            blocks_box,
            l,
            listed,
            scratch,
            area_error(before.data.lods[l], l, true),
        ),
        live || !(before.view_target(blocks_box, l) is Level),
        area_changed(before, blocks_box, l, map_areas::view_change()),
        (),
        r,
        after,
    )
}

/// What a list of blocks holds follows appending.
proof fn lemma_append_blocks()
    ensures
        forall|a: Seq<VoxelDataBlock>, b: Seq<VoxelDataBlock>|
            #![trigger map_areas::blocks_of(a + b)]
            #![trigger map_areas::blocks_wf(a + b)]
            map_areas::blocks_of(a + b) == map_areas::blocks_of(a) + map_areas::blocks_of(b) && (
            map_areas::blocks_wf(a) && map_areas::blocks_wf(b) ==> map_areas::blocks_wf(a + b)),
{
    assert forall|a: Seq<VoxelDataBlock>, b: Seq<VoxelDataBlock>|
        #![trigger map_areas::blocks_of(a + b)]
        #![trigger map_areas::blocks_wf(a + b)]
        map_areas::blocks_of(a + b) == map_areas::blocks_of(a) + map_areas::blocks_of(b) && (
        map_areas::blocks_wf(a) && map_areas::blocks_wf(b) ==> map_areas::blocks_wf(a + b)) by {
        assert(map_areas::blocks_of(a + b) =~= map_areas::blocks_of(a) + map_areas::blocks_of(b));
    }
}

/// What a list of blocks to be saved holds follows appending.
pub proof fn lemma_append_saves()
    ensures
        forall|a: Seq<BlockToSave>, b: Seq<BlockToSave>|
            #![trigger map_areas::saves_of(a + b)]
            #![trigger map_areas::saves_wf(a + b)]
            map_areas::saves_of(a + b) == map_areas::saves_of(a) + map_areas::saves_of(b) && (
            map_areas::saves_wf(a) && map_areas::saves_wf(b) ==> map_areas::saves_wf(a + b)),
{
    assert forall|a: Seq<BlockToSave>, b: Seq<BlockToSave>|
        #![trigger map_areas::saves_of(a + b)]
        #![trigger map_areas::saves_wf(a + b)]
        map_areas::saves_of(a + b) == map_areas::saves_of(a) + map_areas::saves_of(b) && (
        map_areas::saves_wf(a) && map_areas::saves_wf(b) ==> map_areas::saves_wf(a + b)) by {
        assert(map_areas::saves_of(a + b) =~= map_areas::saves_of(a) + map_areas::saves_of(b));
    }
}

/// The outcome of releasing a box.
pub open spec fn unview_outcome(
    before: SharedModel,
    blocks_box: Box3i,
    l: int,
    listed: bool,
    saving: bool,
    scratch: bool,
    live: bool,
    r: Result<(), SharedVoxelDataMutationError>,
    after: SharedModel,
) -> bool {
    shared_edits::change_outcome(
        before,
        area_refusal(
            before,
            blocks_box,
            l,
            listed,
            scratch,
            area_error(before.data.lods[l], l, false),
        ),
        live || !(before.view_target(blocks_box, l) is Level),
        area_changed(before, blocks_box, l, release_change(saving)),
        (),
        r,
        after,
    )
}

impl SharedVoxelData {
    /// `unview_area`, where `scratch` says whether there is room for the lists
    /// and `live` whether there is room for everything else.
    pub fn unview_area_reserved(
        &mut self,
        blocks_box: Box3i,
        lod_index: usize,
        removed_blocks: Option<&mut Vec<Vector3i>>,
        missing_blocks: Option<&mut Vec<Vector3i>>,
        to_save: Option<&mut Vec<BlockToSave>>,
        lists: ReleaseOutcome,
        scratch: bool,
        live: bool,
    ) -> (r: Result<(), SharedVoxelDataMutationError>)
        requires
            old(self).wf(),
            lists.blank(),
            to_save matches Some(v) ==> map_areas::saves_wf(v@),
        ensures
            final(self).wf(),
            unview_outcome(
                old(self)@,
                blocks_box,
                lod_index as int,
                missing_blocks is Some,
                to_save is Some,
                scratch,
                live,
                r,
                final(self)@,
            ),
            match removed_blocks {
                Some(v) => final(v)@ == v@ + appended(
                    r,
                    area_removed(old(self)@, blocks_box, lod_index as int, to_save is Some),
                ),
                None => true,
            },
            match missing_blocks {
                Some(v) => final(v)@ == v@ + appended(
                    r,
                    area_missing(old(self)@, blocks_box, lod_index as int),
                ),
                None => true,
            },
            match to_save {
                Some(v) => map_areas::saves_wf(final(v)@) && map_areas::saves_of(final(v)@)
                    == map_areas::saves_of(v@) + appended(
                    r,
                    area_saves(old(self)@, blocks_box, lod_index as int),
                ),
                None => true,
            },
    {
        let ghost before = self@;
        let ghost l = lod_index as int;
        let ghost m = before.data.lods[l];
        let saving = to_save.is_some();
        let ghost absent = |p: Vector3i| !before.data.has_block(p, l);
        let ghost present = |p: Vector3i| before.data.has_block(p, l);
        let ghost gone = |p: Vector3i| release_removes(m, saving, p);
        let ghost kept = |p: Vector3i| release_saves(m, p);
        let ghost save = |p: Vector3i| revisioned_save(m, l, p);
        proof {
            self.lemma_wf();
            collections::lemma_filter_empty(absent);
            collections::lemma_filter_empty(present);
            collections::lemma_filter_empty(gone);
            collections::lemma_filter_empty(kept);
            assert(Seq::<Vector3i>::empty().map_values(save) =~= Seq::empty());
            collections::lemma_add_empty::<SaveModel>();
            collections::lemma_add_empty::<Vector3i>();
        }
        let target = self.view_target(blocks_box, lod_index);
        match self.refuse_area(
            target,
            blocks_box,
            lod_index,
            missing_blocks.is_some(),
            scratch,
            false,
        ) {
            Some(e) => {
                return Err(e);
            },
            None => {},
        }
        match target {
            ViewTarget::Nothing => Ok(()),
            ViewTarget::Unseen(b) => {
                match missing_blocks {
                    Some(out) => {
                        voxel_data::extend_cells(out, b);
                    },
                    None => {},
                }
                Ok(())
            },
            ViewTarget::Level(b) => {
                if !live {
                    return Err(SharedVoxelDataMutationError::CapacityReservationFailed);
                }
                let ghost cells = b.cells();
                let ghost here = |p: Vector3i| m.has(p);
                let ghost nowhere = |p: Vector3i| !m.has(p);
                let ghost e = area_error(m, l, false);
                proof {
                    b.lemma_cells();
                    assert(present =~= here);
                    assert(absent =~= nowhere);
                    collections::lemma_first_some_facts(cells, e);
                    collections::lemma_filter_facts(cells, here);
                    collections::lemma_filter_twice(cells, here, gone);
                    collections::lemma_filter_twice(cells, here, kept);
                    assert(Seq::<Vector3i>::empty() + cells.filter(absent) =~= cells.filter(absent));
                    assert forall|p: Vector3i| cells.contains(p) && #[trigger] m.has(p) implies
                        m.blocks[p].viewers > 0 by {
                        let j = choose|j: int| 0 <= j < cells.len() && cells[j] == p;
                        assert(e(cells[j]) is None);
                    }
                }
                let map = self.lod_mut(lod_index);
                let r = release_blocks(map, b, lod_index, saving, lists);
                proof {
                    assert forall|k: int| 0 <= k < r.touched@.len() implies map@.revision(
                        #[trigger] r.touched@[k],
                    ) < u64::MAX by {
                        let p = r.touched@[k];
                        assert(cells.filter(here).contains(p));
                        assert(cells.contains(p));
                        let j = choose|j: int| 0 <= j < cells.len() && cells[j] == p;
                        assert(e(cells[j]) is None);
                    }
                }
                revision::advance_revisions(map, &r.touched);
                append_to(removed_blocks, r.removed);
                append_to(missing_blocks, r.missing);
                proof {
                    lemma_append_saves();
                }
                append_to(to_save, r.saves);
                Ok(())
            },
        }
    }

    /// Adds a viewer to every block of a box of blocks, as far as it is in
    /// bounds. Positions without a block, positions with one, and copies of
    /// those are appended to the lists that are asked for. An error leaves the
    /// data and the lists as they were.
    pub fn view_area(
        &mut self,
        blocks_box: Box3i,
        lod_index: usize,
        missing_blocks: Option<&mut Vec<Vector3i>>,
        found_blocks_positions: Option<&mut Vec<Vector3i>>,
        found_blocks: Option<&mut Vec<VoxelDataBlock>>,
    ) -> (r: Result<(), SharedVoxelDataMutationError>)
        requires
            old(self).wf(),
            found_blocks matches Some(v) ==> map_areas::blocks_wf(v@),
        ensures
            final(self).wf(),
            exists|scratch: bool, live: bool| #[trigger]
                view_outcome(
                    old(self)@,
                    blocks_box,
                    lod_index as int,
                    missing_blocks is Some,
                    scratch,
                    live,
                    r,
                    final(self)@,
                ) && (old(self)@.view_target(blocks_box, lod_index as int).all_cells().len() == 0
                    ==> scratch && live),
            match missing_blocks {
                Some(v) => final(v)@ == v@ + appended(
                    r,
                    area_missing(old(self)@, blocks_box, lod_index as int),
                ),
                None => true,
            },
            match found_blocks_positions {
                Some(v) => final(v)@ == v@ + appended(
                    r,
                    area_found(old(self)@, blocks_box, lod_index as int),
                ),
                None => true,
            },
            match found_blocks {
                Some(v) => map_areas::blocks_wf(final(v)@) && map_areas::blocks_of(final(v)@)
                    == map_areas::blocks_of(v@) + appended(
                    r,
                    area_found(old(self)@, blocks_box, lod_index as int).map_values(
                        |p: Vector3i|
                            map_areas::viewed(old(self)@.data.lods[lod_index as int].blocks[p]),
                    ),
                ),
                None => true,
            },
    {
        let n: usize = self.target_size(blocks_box, lod_index);
        let mut lists = ViewOutcome::new();
        let mut scratch = lists.try_reserve(n);
        let (missing_blocks, room) = reserve_output(missing_blocks, n);
        if !room {
            scratch = false;
        }
        let (found_blocks_positions, positions_fit) = reserve_output(found_blocks_positions, n);
        let (found_blocks, blocks_fit) = reserve_output(found_blocks, n);
        let live = self.try_reserve_revisions(lod_index, n) && positions_fit && blocks_fit;
        self.view_area_reserved(
            blocks_box,
            lod_index,
            missing_blocks,
            found_blocks_positions,
            found_blocks,
            lists,
            scratch,
            live,
        )
    }

    /// Takes a viewer from every block of a box of blocks, as far as it is in
    /// bounds. A block without viewers goes; one that is modified goes only if
    /// it can be saved. Positions whose block is gone, positions without a
    /// block, and what has to be saved are appended to the lists that are asked
    /// for. An error leaves the data and the lists as they were.
    pub fn unview_area(
        &mut self,
        blocks_box: Box3i,
        lod_index: usize,
        removed_blocks: Option<&mut Vec<Vector3i>>,
        missing_blocks: Option<&mut Vec<Vector3i>>,
        to_save: Option<&mut Vec<BlockToSave>>,
    ) -> (r: Result<(), SharedVoxelDataMutationError>)
        requires
            old(self).wf(),
            to_save matches Some(v) ==> map_areas::saves_wf(v@),
        ensures
            final(self).wf(),
            exists|scratch: bool, live: bool| #[trigger]
                unview_outcome(
                    old(self)@,
                    blocks_box,
                    lod_index as int,
                    missing_blocks is Some,
                    to_save is Some,
                    scratch,
                    live,
                    r,
                    final(self)@,
                ) && (old(self)@.view_target(blocks_box, lod_index as int).all_cells().len() == 0
                    ==> scratch && live),
            match removed_blocks {
                Some(v) => final(v)@ == v@ + appended(
                    r,
                    area_removed(old(self)@, blocks_box, lod_index as int, to_save is Some),
                ),
                None => true,
            },
            match missing_blocks {
                Some(v) => final(v)@ == v@ + appended(
                    r,
                    area_missing(old(self)@, blocks_box, lod_index as int),
                ),
                None => true,
            },
            match to_save {
                Some(v) => map_areas::saves_wf(final(v)@) && map_areas::saves_of(final(v)@)
                    == map_areas::saves_of(v@) + appended(
                    r,
                    area_saves(old(self)@, blocks_box, lod_index as int),
                ),
                None => true,
            },
    {
        let n: usize = self.target_size(blocks_box, lod_index);
        let mut lists = ReleaseOutcome::new();
        let mut scratch = lists.try_reserve(n);
        let (missing_blocks, room) = reserve_output(missing_blocks, n);
        if !room {
            scratch = false;
        }
        let (removed_blocks, removed_fit) = reserve_output(removed_blocks, n);
        let (to_save, saves_fit) = reserve_output(to_save, n);
        let live = self.try_reserve_revisions(lod_index, n) && removed_fit && saves_fit;
        self.unview_area_reserved(
            blocks_box,
            lod_index,
            removed_blocks,
            missing_blocks,
            to_save,
            lists,
            scratch,
            live,
        )
    }

    /// Number of blocks that are looked at; zero if it cannot be counted.
    fn target_size(&self, blocks_box: Box3i, lod_index: usize) -> (n: usize)
        requires
            self.wf(),
        ensures
            ({
                let count = self@.view_target(blocks_box, lod_index as int).all_cells().len();
                n == if count <= usize::MAX {
                    count
                } else {
                    0
                }
            }),
    {
        let count = match self.view_target(blocks_box, lod_index) {
            ViewTarget::Nothing => Some(0),
            ViewTarget::Unseen(b) => checked_box_cell_count(b),
            ViewTarget::Level(b) => checked_box_cell_count(b),
        };
        match count {
            Some(n) => n,
            None => 0,
        }
    }

    /// Asks for room for more revisions at a level. None is needed for none, or
    /// at a level that does not exist.
    fn try_reserve_revisions(&mut self, lod_index: usize, n: usize) -> (reserved: bool)
        requires
            old(self).wf(),
        ensures
            final(self).wf(),
            final(self)@ == old(self)@,
            n == 0 || lod_index >= old(self)@.data.lods.len() ==> reserved,
    {
        if lod_index < self.lod_count() {
            self.try_reserve(lod_index, 0, n)
        } else {
            true
        }
    }
}

} // verus!
