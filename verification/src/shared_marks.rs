//! Marking the blocks of shared voxel data as modified, and taking what is
//! modified for saving.

use crate::boxes;
use crate::boxes::{Box3i, BoxBounds3i};
use crate::collections;
use crate::map_areas;
use crate::math::Vector3i;
use crate::mutation_error::SharedVoxelDataMutationError;
use crate::revision;
use crate::revision::VoxelDataKeyRevision;
use crate::shared_data::{SharedModel, SharedVoxelData};
use crate::shared_edits;
use crate::shared_views;
use crate::sorting;
use crate::voxel_data;
use crate::voxel_data::{BlockToSave, SaveModel};
use crate::voxel_data_block::BlockModel;
use crate::voxel_data_map;
use crate::voxel_data_map::{MapModel, VoxelDataMap};
use vstd::prelude::*;

verus! {

/// A change of one block that was prepared when its key had a given revision.
#[derive(Clone, Copy, Debug, PartialEq, Eq, Structural)]
pub struct PreparedBlockMutation {
    pub position: Vector3i,
    pub lod_index: usize,
    pub expected_revision: VoxelDataKeyRevision,
    pub next_revision: u64,
    pub bounds: BoxBounds3i,
    /// The block begins to wait for an update of the coarser levels.
    pub set_needs_lodding: bool,
}

/// Why a block cannot be changed at all: its revision cannot advance, or its
/// voxels have no positions.
pub open spec fn key_error(m: MapModel, l: int, p: Vector3i) -> Option<
    SharedVoxelDataMutationError,
> {
    if m.revision(p) == u64::MAX {
        Some(
            SharedVoxelDataMutationError::KeyRevisionOverflow {
                position: p,
                lod_index: l as usize,
            },
        )
    } else if !boxes::block_bounds_exist(boxes::single(p), l as nat) {
        Some(SharedVoxelDataMutationError::SpatialBoundsOverflow { lod_index: l as usize })
    } else {
        None
    }
}

/// The change of the block at `p` that is prepared from a map.
pub open spec fn prepared_from(m: MapModel, l: int, p: Vector3i, set_needs_lodding: bool) ->
    PreparedBlockMutation {
    PreparedBlockMutation {
        position: p,
        lod_index: l as usize,
        expected_revision: m.key_revision(p),
        next_revision: (m.revision(p) + 1) as u64,
        bounds: boxes::block_bounds(boxes::single(p), l as nat),
        set_needs_lodding,
    }
}

/// Prepares the change of a block, or says why it cannot be changed.
pub(crate) fn prepare_block(
    map: &VoxelDataMap,
    lod_index: usize,
    position: Vector3i,
    set_needs_lodding: bool,
) -> (r: Result<PreparedBlockMutation, SharedVoxelDataMutationError>)
    requires
        lod_index <= boxes::MAX_STRIDE_LOD,
    ensures
        match r {
            Ok(c) => key_error(map@, lod_index as int, position) is None && c == prepared_from(
                map@,
                lod_index as int,
                position,
                set_needs_lodding,
            ),
            Err(e) => key_error(map@, lod_index as int, position) == Some(e),
        },
{
    let expected_revision = revision::current_key_revision(map, position);
    if expected_revision.value() == u64::MAX {
        return Err(SharedVoxelDataMutationError::KeyRevisionOverflow { position, lod_index });
    }
    match boxes::checked_lod_block_bounds(shared_edits::single_block(position), lod_index) {
        Some(bounds) => Ok(
            PreparedBlockMutation {
                position,
                lod_index,
                expected_revision,
                next_revision: expected_revision.value() + 1,
                bounds,
                set_needs_lodding,
            },
        ),
        None => Err(SharedVoxelDataMutationError::SpatialBoundsOverflow { lod_index }),
    }
}

/// The conflict, if the key of a block no longer has the revision that a change
/// was prepared for.
pub open spec fn revision_conflict(s: SharedModel, c: PreparedBlockMutation) -> Option<
    SharedVoxelDataMutationError,
> {
    let actual = s.data.lods[c.lod_index as int].key_revision(c.position);
    if actual != c.expected_revision {
        Some(
            SharedVoxelDataMutationError::ConcurrentDataMutation {
                position: c.position,
                lod_index: c.lod_index,
                expected_revision: c.expected_revision,
                actual_revision: actual,
            },
        )
    } else {
        None
    }
}

/// `revision_conflict`, or the block is no longer modified.
pub open spec fn dirty_conflict(s: SharedModel, c: PreparedBlockMutation) -> Option<
    SharedVoxelDataMutationError,
> {
    let m = s.data.lods[c.lod_index as int];
    if m.key_revision(c.position) != c.expected_revision || !map_areas::modified_at(
        m,
        c.position,
    ) {
        Some(
            SharedVoxelDataMutationError::ConcurrentDataMutation {
                position: c.position,
                lod_index: c.lod_index,
                expected_revision: c.expected_revision,
                actual_revision: m.key_revision(c.position),
            },
        )
    } else {
        None
    }
}

/// The block after a prepared mark.
pub open spec fn mark_applied(b: BlockModel, c: PreparedBlockMutation) -> BlockModel {
    BlockModel {
        modified: true,
        edited: true,
        needs_lodding: b.needs_lodding || c.set_needs_lodding,
        ..b
    }
}

/// The levels after the first `n` prepared changes: marks, or the opposite.
pub open spec fn changes_applied(
    lods: Seq<MapModel>,
    changes: Seq<PreparedBlockMutation>,
    mark: bool,
    n: int,
) -> Seq<MapModel>
    decreases n,
{
    if n <= 0 {
        lods
    } else {
        let before = changes_applied(lods, changes, mark, n - 1);
        let c = changes[n - 1];
        let m = before[c.lod_index as int];
        let b = m.blocks[c.position];
        before.update(
            c.lod_index as int,
            m.with_block(
                c.position,
                if mark {
                    mark_applied(b, c)
                } else {
                    BlockModel { modified: false, ..b }
                },
            ).with_revision(c.position, c.next_revision),
        )
    }
}

/// The changes are at existing levels, of blocks that were there.
pub open spec fn changes_fit(s: SharedModel, changes: Seq<PreparedBlockMutation>) -> bool {
    forall|k: int|
        0 <= k < changes.len() ==> s.has_lod((#[trigger] changes[k]).lod_index as int)
            && changes[k].expected_revision is Present
}

/// The conflict that a prepared change meets.
pub open spec fn conflict_of(s: SharedModel, mark: bool) -> spec_fn(PreparedBlockMutation) ->
    Option<SharedVoxelDataMutationError> {
    |c: PreparedBlockMutation|
        if mark {
            revision_conflict(s, c)
        } else {
            dirty_conflict(s, c)
        }
}

/// The level of a prepared change.
pub open spec fn level_of() -> spec_fn(PreparedBlockMutation) -> int {
    |c: PreparedBlockMutation| c.lod_index as int
}

/// The outcome of a list of prepared changes, where `short` is the level that has
/// no room for its changes.
pub open spec fn changes_outcome(
    before: SharedModel,
    changes: Seq<PreparedBlockMutation>,
    mark: bool,
    short: Option<usize>,
    r: Result<(), SharedVoxelDataMutationError>,
    after: SharedModel,
) -> bool {
    shared_edits::change_outcome(
        before,
        if before.closed {
            Some(SharedVoxelDataMutationError::MutationAdmissionClosed)
        } else {
            shared_edits::refusal_below(
                changes,
                level_of(),
                conflict_of(before, mark),
                short,
                before.data.lods.len() as int,
            )
        },
        true,
        before.with_lods(
            changes_applied(before.data.lods, changes, mark, changes.len() as int),
        ),
        (),
        r,
        after,
    )
}

/// Number of changes at a level.
fn count_changes(changes: &Vec<PreparedBlockMutation>, l: usize) -> (n: usize)
    ensures
        n == changes@.filter(|c: PreparedBlockMutation| c.lod_index == l).len(),
        n > 0 <==> shared_edits::changes_level(changes@, level_of(), l as int),
{
    let ghost here = |c: PreparedBlockMutation| c.lod_index == l;
    let ghost level = level_of();
    let mut n: usize = 0;
    let mut i: usize = 0;
    proof {
        collections::lemma_filter_none(changes@, here);
    }
    while i < changes.len()
        invariant
            i <= changes@.len(),
            n <= i,
            here == (|c: PreparedBlockMutation| c.lod_index == l),
            level == level_of(),
            n == changes@.take(i as int).filter(here).len(),
            n > 0 <==> exists|k: int| 0 <= k < i && level(#[trigger] changes@[k]) == l,
        decreases changes@.len() - i,
    {
        proof {
            collections::lemma_filter_take(changes@, here, i as int);
            assert(level(changes@[i as int]) == changes@[i as int].lod_index);
        }
        if changes[i].lod_index == l {
            n = n + 1;
        }
        i = i + 1;
    }
    assert(changes@.take(i as int) =~= changes@);
    n
}

/// The level without room, where there is none at all: that of the first change.
fn short_of_room(changes: &Vec<PreparedBlockMutation>, reserved: bool) -> (short: Option<usize>)
    ensures
        short == if reserved || changes@.len() == 0 {
            None
        } else {
            Some(changes@[0].lod_index)
        },
        short matches Some(l) ==> shared_edits::changes_level(changes@, level_of(), l as int),
{
    if reserved || changes.len() == 0 {
        None
    } else {
        assert(level_of()(changes@[0]) == changes@[0].lod_index);
        Some(changes[0].lod_index)
    }
}

/// What is still there keeps its place while changes are applied.
proof fn lemma_changes_keep(
    lods: Seq<MapModel>,
    changes: Seq<PreparedBlockMutation>,
    mark: bool,
    n: int,
)
    requires
        0 <= n <= changes.len(),
        forall|k: int|
            0 <= k < changes.len() ==> (#[trigger] changes[k]).lod_index < lods.len()
                && lods[changes[k].lod_index as int].has(changes[k].position),
    ensures
        changes_applied(lods, changes, mark, n).len() == lods.len(),
        forall|l: int, p: Vector3i|
            0 <= l < lods.len() ==> (#[trigger] changes_applied(lods, changes, mark, n)[l].has(p))
                == lods[l].has(p),
    decreases n,
{
    if n > 0 {
        lemma_changes_keep(lods, changes, mark, n - 1);
        let before = changes_applied(lods, changes, mark, n - 1);
        let after = changes_applied(lods, changes, mark, n);
        let c = changes[n - 1];
        assert forall|l: int, p: Vector3i| 0 <= l < lods.len() implies (#[trigger] after[l].has(p))
            == lods[l].has(p) by {
            assert(before[l].has(p) == lods[l].has(p));
        }
    }
}

impl SharedVoxelData {
    /// The first conflict that the changes of a level meet, and whether there are
    /// any changes.
    fn find_level_conflict(
        &self,
        changes: &Vec<PreparedBlockMutation>,
        mark: bool,
        l: usize,
    ) -> (r: (Option<SharedVoxelDataMutationError>, bool))
        requires
            self.wf(),
            changes_fit(self@, changes@),
        ensures
            r.0 == shared_edits::level_conflict(
                changes@,
                level_of(),
                conflict_of(self@, mark),
                l as int,
            ),
            r.0 is None ==> r.1 == shared_edits::changes_level(changes@, level_of(), l as int),
    {
        let ghost level = level_of();
        let ghost conflict = conflict_of(self@, mark);
        let ghost here = shared_edits::at_level(level, conflict, l as int);
        let mut any = false;
        let mut i: usize = 0;
        assert(collections::first_some(changes@.take(0), here) is None);
        while i < changes.len()
            invariant
                i <= changes@.len(),
                self.wf(),
                changes_fit(self@, changes@),
                level == level_of(),
                conflict == conflict_of(self@, mark),
                here == shared_edits::at_level(level, conflict, l as int),
                collections::first_some(changes@.take(i as int), here) is None,
                any == exists|k: int| 0 <= k < i && level(#[trigger] changes@[k]) == l,
            decreases changes@.len() - i,
        {
            let c = changes[i];
            proof {
                collections::lemma_first_some_take(changes@, here, i as int);
                assert(changes@[i as int] == c);
                assert(level(changes@[i as int]) == c.lod_index);
            }
            if c.lod_index == l {
                any = true;
                let map = self.lod(c.lod_index);
                let actual_revision = revision::current_key_revision(map, c.position);
                let modified = match map.get_block(c.position) {
                    Some(block) => block.is_modified(),
                    None => false,
                };
                if actual_revision != c.expected_revision || !mark && !modified {
                    let error = SharedVoxelDataMutationError::ConcurrentDataMutation {
                        position: c.position,
                        lod_index: c.lod_index,
                        expected_revision: c.expected_revision,
                        actual_revision,
                    };
                    proof {
                        assert(here(c) == Some(error));
                        collections::lemma_first_some_prefix(changes@, here, i + 1);
                    }
                    return (Some(error), true);
                }
            }
            assert(here(c) is None);
            i = i + 1;
        }
        assert(changes@.take(i as int) =~= changes@);
        (None, any)
    }

    /// Asks for room for the revisions of all changes. Returns the first level
    /// that has no room for its changes.
    pub fn reserve_changes(&mut self, changes: &Vec<PreparedBlockMutation>) -> (short: Option<
        usize,
    >)
        requires
            old(self).wf(),
        ensures
            final(self).wf(),
            final(self)@ == old(self)@,
            short matches Some(l) ==> l < old(self)@.data.lods.len()
                && shared_edits::changes_level(changes@, level_of(), l as int),
    {
        let n: usize = self.lod_count();
        let mut l: usize = 0;
        while l < n
            invariant
                n == old(self)@.data.lods.len(),
                self.wf(),
                self@ == old(self)@,
            decreases n - l,
        {
            let count: usize = count_changes(changes, l);
            if !self.try_reserve(l, 0, count) {
                return Some(l);
            }
            l = l + 1;
        }
        None
    }

    /// Makes a list of prepared changes: marks blocks as modified and edited,
    /// or takes them as saved. Nothing changes where the key of any block has
    /// changed since; `short` is the level that has no room for its changes.
    fn commit_changes(
        &mut self,
        changes: &Vec<PreparedBlockMutation>,
        mark: bool,
        short: Option<usize>,
    ) -> (r: Result<(), SharedVoxelDataMutationError>)
        requires
            old(self).wf(),
            changes_fit(old(self)@, changes@),
        ensures
            final(self).wf(),
            changes_outcome(old(self)@, changes@, mark, short, r, final(self)@),
    {
        let ghost before = self@;
        let ghost lods = before.data.lods;
        let ghost conflict = conflict_of(before, mark);
        proof {
            self.lemma_wf();
        }
        if self.is_mutation_admission_closed() {
            return Err(SharedVoxelDataMutationError::MutationAdmissionClosed);
        }
        let ghost level = level_of();
        let n: usize = self.lod_count();
        let mut l: usize = 0;
        while l < n
            invariant
                l <= n,
                n == lods.len(),
                lods == before.data.lods,
                self.wf(),
                self@ == before,
                !before.closed,
                changes_fit(before, changes@),
                level == level_of(),
                conflict == conflict_of(before, mark),
                shared_edits::refusal_below(changes@, level, conflict, short, l as int) is None,
            decreases n - l,
        {
            let (found, any) = self.find_level_conflict(changes, mark, l);
            proof {
                let next = shared_edits::refusal_below(changes@, level, conflict, short, l + 1);
                if next is Some {
                    shared_edits::lemma_refusal_stays(
                        changes@,
                        level,
                        conflict,
                        short,
                        l + 1,
                        n as int,
                    );
                }
            }
            match found {
                Some(e) => {
                    return Err(e);
                },
                None => {},
            }
            if any && short == Some(l) {
                return Err(SharedVoxelDataMutationError::CapacityReservationFailed);
            }
            l = l + 1;
        }
        proof {
            assert forall|k: int| 0 <= k < changes@.len() implies (
            #[trigger] changes@[k]).lod_index < lods.len()
                && lods[changes@[k].lod_index as int].has(changes@[k].position) by {
                assert(before.has_lod(changes@[k].lod_index as int));
                shared_edits::lemma_not_refused(changes@, level, conflict, short, n as int, k);
                assert(conflict(changes@[k]) is None);
            }
            assert(before.with_lods(lods) == before);
        }
        let mut i: usize = 0;
        while i < changes.len()
            invariant
                i <= changes@.len(),
                self.wf(),
                lods == before.data.lods,
                forall|k: int|
                    0 <= k < changes@.len() ==> (#[trigger] changes@[k]).lod_index < lods.len()
                        && lods[changes@[k].lod_index as int].has(changes@[k].position),
                self@ == before.with_lods(changes_applied(lods, changes@, mark, i as int)),
            decreases changes@.len() - i,
        {
            let c = changes[i];
            proof {
                lemma_changes_keep(lods, changes@, mark, i as int);
                assert(changes@[i as int] == c);
                assert(self@.data.lods[c.lod_index as int].has(c.position));
            }
            let map = self.lod_mut(c.lod_index);
            match map.get_block_mut(c.position) {
                Some(block) => {
                    if mark {
                        block.set_modified(true);
                        block.set_edited(true);
                        if c.set_needs_lodding {
                            block.set_needs_lodding(true);
                        }
                    } else {
                        block.set_modified(false);
                    }
                },
                None => {},
            }
            map.commit_key_revision(c.position, c.next_revision);
            i = i + 1;
        }
        Ok(())
    }

    /// Marks blocks as modified and edited; `short` is the level that has no room
    /// for its changes.
    pub fn commit_mark_area_modified(
        &mut self,
        changes: &Vec<PreparedBlockMutation>,
        short: Option<usize>,
    ) -> (r: Result<(), SharedVoxelDataMutationError>)
        requires
            old(self).wf(),
            changes_fit(old(self)@, changes@),
        ensures
            final(self).wf(),
            changes_outcome(old(self)@, changes@, true, short, r, final(self)@),
    {
        self.commit_changes(changes, true, short)
    }

    /// Takes modified blocks as saved; `short` is the level that has no room for
    /// its changes.
    pub fn commit_dirty_consumption(
        &mut self,
        changes: &Vec<PreparedBlockMutation>,
        short: Option<usize>,
    ) -> (r: Result<(), SharedVoxelDataMutationError>)
        requires
            old(self).wf(),
            changes_fit(old(self)@, changes@),
        ensures
            final(self).wf(),
            changes_outcome(old(self)@, changes@, false, short, r, final(self)@),
    {
        self.commit_changes(changes, false, short)
    }
}

/// The block at `p` is not yet marked as wanted.
pub open spec fn mark_wanted(m: MapModel, require_lod_updates: bool, p: Vector3i) -> bool {
    m.has_voxels(p) && !(m.blocks[p].modified && m.blocks[p].edited && !(require_lod_updates
        && !m.blocks[p].needs_lodding))
}

/// The blocks that a box of voxels touches and that are not yet marked as
/// wanted, in ZXY order.
pub open spec fn mark_cells(m: MapModel, voxel_box: Box3i, require_lod_updates: bool) -> Seq<
    Vector3i,
> {
    voxel_data::touched_blocks(voxel_box).cells().filter(
        |p: Vector3i| mark_wanted(m, require_lod_updates, p),
    )
}

/// The mark of the block at `p`, as prepared.
pub open spec fn prepared_mark(m: MapModel, require_lod_updates: bool, p: Vector3i) ->
    PreparedBlockMutation {
    prepared_from(m, 0, p, require_lod_updates && !m.blocks[p].needs_lodding)
}

/// What comes of preparing to mark the blocks that a box of voxels touches.
/// Where several blocks cannot be changed, any of the errors may come out.
pub open spec fn marks_prepared(
    m: MapModel,
    voxel_box: Box3i,
    require_lod_updates: bool,
    r: Result<Seq<PreparedBlockMutation>, SharedVoxelDataMutationError>,
) -> bool {
    let cells = mark_cells(m, voxel_box, require_lod_updates);
    if !voxel_box.end().fits() {
        r == Err::<Seq<PreparedBlockMutation>, _>(
            SharedVoxelDataMutationError::SpatialBoundsOverflow { lod_index: 0 },
        )
    } else if voxel_box.vacant() {
        r == Ok::<Seq<PreparedBlockMutation>, SharedVoxelDataMutationError>(Seq::empty())
    } else {
        match r {
            Ok(changes) => {
                &&& forall|p: Vector3i| #[trigger]
                    cells.contains(p) ==> key_error(m, 0, p) is None
                &&& changes == cells.map_values(
                    |p: Vector3i| prepared_mark(m, require_lod_updates, p),
                )
            },
            Err(e) => exists|p: Vector3i| #[trigger]
                cells.contains(p) && key_error(m, 0, p) == Some(e),
        }
    }
}

/// The result of preparing, by its view.
pub open spec fn prepared_view(
    r: Result<Vec<PreparedBlockMutation>, SharedVoxelDataMutationError>,
) -> Result<Seq<PreparedBlockMutation>, SharedVoxelDataMutationError> {
    match r {
        Ok(v) => Ok(v@),
        Err(e) => Err(e),
    }
}

/// How blocks are changed.
pub open spec fn change_of(mark: bool, require_lod_updates: bool) -> spec_fn(
    Vector3i,
    Option<BlockModel>,
) -> Option<BlockModel> {
    if mark {
        map_areas::mark_change(require_lod_updates)
    } else {
        map_areas::clean_change()
    }
}

/// Change number `j` is the one prepared for the block at `p` of level `l`.
pub open spec fn prepared_there(
    lods: Seq<MapModel>,
    c: PreparedBlockMutation,
    mark: bool,
    require_lod_updates: bool,
    l: int,
    p: Vector3i,
) -> bool {
    let m = lods[l];
    &&& m.has(p)
    &&& mark ==> m.has_voxels(p)
    &&& m.revision(p) < u64::MAX
    &&& c == prepared_from(m, l, p, mark && require_lod_updates && !m.blocks[p].needs_lodding)
}

/// The changes prepared for one level, made one after the other, change all
/// their blocks and advance their revisions.
proof fn lemma_changes_level(
    lods: Seq<MapModel>,
    changes: Seq<PreparedBlockMutation>,
    mark: bool,
    require_lod_updates: bool,
    k: int,
    l: int,
    cells: Seq<Vector3i>,
    i: int,
)
    requires
        0 <= k,
        0 <= i <= cells.len(),
        k + cells.len() <= changes.len(),
        0 <= l < lods.len() <= usize::MAX,
        cells.no_duplicates(),
        changes_applied(lods, changes, mark, k).len() == lods.len(),
        changes_applied(lods, changes, mark, k)[l] == lods[l],
        forall|j: int|
            0 <= j < cells.len() ==> prepared_there(
                lods,
                changes[k + j],
                mark,
                require_lod_updates,
                l,
                #[trigger] cells[j],
            ),
    ensures
        changes_applied(lods, changes, mark, k + i) == changes_applied(
            lods,
            changes,
            mark,
            k,
        ).update(
            l,
            lods[l].changed(cells.take(i), change_of(mark, require_lod_updates)).advanced(
                cells.take(i),
            ),
        ),
    decreases i,
{
    let m = lods[l];
    let f = change_of(mark, require_lod_updates);
    let start = changes_applied(lods, changes, mark, k);
    if i == 0 {
        voxel_data_map::lemma_changed_start(m, cells, f);
        assert(m.advanced(cells.take(0)).revisions =~= m.revisions);
        assert(start.update(l, m) =~= start);
    } else {
        lemma_changes_level(lods, changes, mark, require_lod_updates, k, l, cells, i - 1);
        let p = cells[i - 1];
        let c = changes[k + i - 1];
        assert(prepared_there(lods, changes[k + (i - 1)], mark, require_lod_updates, l, p));
        let changed = m.changed(cells.take(i - 1), f);
        let now = changed.advanced(cells.take(i - 1));
        voxel_data_map::lemma_changed_step(m, cells, f, i - 1);
        revision::lemma_advanced_step(changed, cells, i - 1);
        assert(changed.blocks.get(p) == m.blocks.get(p));
        assert(now.blocks[p] == m.blocks[p]);
        let after = m.changed(cells.take(i), f).advanced(cells.take(i));
        let b = m.blocks[p];
        let nb = if mark {
            mark_applied(b, c)
        } else {
            BlockModel { modified: false, ..b }
        };
        assert(f(p, m.blocks.get(p)) == Some(nb));
        let stepped = now.with_block(p, nb).with_revision(p, c.next_revision);
        assert(after.blocks =~= stepped.blocks);
        let other = m.changed(cells.take(i), f);
        assert(other.revisions == changed.revisions);
        assert(after.revisions =~= changed.advanced(cells.take(i)).revisions);
        assert(after.revisions =~= stepped.revisions);
        assert(after == stepped);
        assert(changes_applied(lods, changes, mark, k + i) =~= start.update(l, after));
    }
}

/// The outcome of marking the blocks that a box of voxels touches.
pub open spec fn mark_outcome(
    before: SharedModel,
    voxel_box: Box3i,
    require_lod_updates: bool,
    reserved: bool,
    r: Result<Seq<Vector3i>, SharedVoxelDataMutationError>,
    after: SharedModel,
) -> bool {
    let m = before.data.lods[0];
    let cells = mark_cells(m, voxel_box, require_lod_updates);
    if !voxel_box.end().fits() {
        r == Err::<Seq<Vector3i>, _>(
            SharedVoxelDataMutationError::SpatialBoundsOverflow { lod_index: 0 },
        ) && after == before
    } else if voxel_box.vacant() {
        r == Ok::<Seq<Vector3i>, SharedVoxelDataMutationError>(Seq::empty()) && after == before
    } else if exists|p: Vector3i| #[trigger] cells.contains(p) && key_error(m, 0, p) is Some {
        after == before && (r matches Err(e) && exists|p: Vector3i| #[trigger]
            cells.contains(p) && key_error(m, 0, p) == Some(e))
    } else {
        shared_edits::change_outcome(
            before,
            if before.closed {
                Some(SharedVoxelDataMutationError::MutationAdmissionClosed)
            } else {
                None
            },
            reserved || cells.len() == 0,
            before.with_lod(
                0,
                m.changed(cells, map_areas::mark_change(require_lod_updates)).advanced(cells),
            ),
            cells.filter(
                |p: Vector3i| require_lod_updates && map_areas::newly_needs_lod(m, p),
            ),
            r,
            after,
        )
    }
}

/// A list of positions, by its view.
pub open spec fn positions_view(
    r: Result<Vec<Vector3i>, SharedVoxelDataMutationError>,
) -> Result<Seq<Vector3i>, SharedVoxelDataMutationError> {
    match r {
        Ok(v) => Ok(v@),
        Err(e) => Err(e),
    }
}

impl SharedVoxelData {
    /// Prepares to mark the blocks that a box of voxels touches at the finest
    /// level, as far as they have voxels and are not yet marked as wanted.
    pub fn prepare_mark_area_modified(
        &self,
        voxel_box: Box3i,
        require_lod_updates: bool,
    ) -> (r: Result<Vec<PreparedBlockMutation>, SharedVoxelDataMutationError>)
        requires
            self.wf(),
        ensures
            marks_prepared(
                self@.data.lods[0],
                voxel_box,
                require_lod_updates,
                prepared_view(r),
            ),
    {
        proof {
            self.lemma_wf();
        }
        match boxes::checked_box_intersection(voxel_box, voxel_box) {
            Ok(_) => {},
            Err(_) => {
                return Err(SharedVoxelDataMutationError::SpatialBoundsOverflow { lod_index: 0 });
            },
        }
        if voxel_box.is_empty() {
            let none: Vec<PreparedBlockMutation> = Vec::new();
            assert(none@ =~= Seq::empty());
            return Ok(none);
        }
        let area = voxel_data::touched(voxel_box);
        let map = self.lod(0);
        let ghost m = map@;
        let ghost wanted = |p: Vector3i| mark_wanted(m, require_lod_updates, p);
        let ghost all = area.cells();
        let ghost cells = all.filter(wanted);
        proof {
            area.lemma_cells();
            sorting::lemma_filter_lists(all, wanted);
            collections::lemma_filter_facts(all, wanted);
        }
        let positions = map.block_positions();
        let mut found: Vec<Vector3i> = Vec::new();
        let mut i: usize = 0;
        while i < positions.len()
            invariant
                i <= positions@.len(),
                map.wf(),
                m == map@,
                positions@.no_duplicates(),
                found@.no_duplicates(),
                forall|p: Vector3i| #[trigger]
                    found@.contains(p) <==> positions@.take(i as int).contains(p) && area.has(p@)
                        && mark_wanted(m, require_lod_updates, p),
            decreases positions@.len() - i,
        {
            let p = positions[i];
            proof {
                collections::lemma_take_contains(positions@, i as int);
                lemma_not_before(positions@, i as int);
            }
            if area.contains_point(p) {
                match map.get_block(p) {
                    Some(block) => {
                        if block.has_voxels() && !(block.is_modified() && block.is_edited() && !(
                        require_lod_updates && !block.needs_lodding())) {
                            let ghost before = found@;
                            found.push(p);
                            proof {
                                lemma_push_contains(before, p);
                            }
                        }
                    },
                    None => {},
                }
            }
            i = i + 1;
        }
        proof {
            assert(positions@.take(i as int) =~= positions@);
            assert forall|p: Vector3i| #[trigger] found@.contains(p) <==> cells.contains(p) by {
                assert(positions@.to_set().contains(p) == positions@.contains(p));
                if area.has(p@) {
                    assert(all.contains(p));
                }
                if all.contains(p) {
                    let k = choose|k: int| 0 <= k < all.len() && all[k] == p;
                    assert(area.has(all[k]@));
                }
            }
        }
        let ghost unsorted = found@;
        let sorted = sorting::sort_positions(found);
        proof {
            assert(unsorted.to_set() =~= Set::new(|p: Vector3i| all.contains(p) && wanted(p))) by {
                assert forall|p: Vector3i| unsorted.to_set().contains(p) == (all.contains(p)
                    && wanted(p)) by {
                    assert(unsorted.to_set().contains(p) == unsorted.contains(p));
                    assert(unsorted.contains(p) == cells.contains(p));
                }
            }
            sorting::lemma_lists_unique(sorted@, cells, unsorted.to_set());
        }
        let mut changes: Vec<PreparedBlockMutation> = Vec::new();
        let ghost mark = |p: Vector3i| prepared_mark(m, require_lod_updates, p);
        let mut i: usize = 0;
        while i < sorted.len()
            invariant
                i <= sorted@.len(),
                map.wf(),
                m == map@,
                sorted@ == cells,
                cells == mark_cells(m, voxel_box, require_lod_updates),
                !voxel_box.vacant(),
                voxel_box.end().fits(),
                m == self@.data.lods[0],
                mark == (|p: Vector3i| prepared_mark(m, require_lod_updates, p)),
                forall|p: Vector3i| #[trigger] cells.contains(p) ==> m.has(p),
                forall|k: int| 0 <= k < i ==> key_error(m, 0, #[trigger] cells[k]) is None,
                changes@ == cells.take(i as int).map_values(mark),
            decreases sorted@.len() - i,
        {
            let p = sorted[i];
            assert(cells.contains(cells[i as int]));
            let set_needs_lodding = match map.get_block(p) {
                Some(block) => require_lod_updates && !block.needs_lodding(),
                None => false,
            };
            match prepare_block(map, 0, p, set_needs_lodding) {
                Ok(c) => {
                    changes.push(c);
                    assert(changes@ =~= cells.take(i + 1).map_values(mark));
                },
                Err(e) => {
                    assert(cells.contains(p) && key_error(m, 0, p) == Some(e));
                    return Err(e);
                },
            }
            i = i + 1;
        }
        proof {
            assert(cells.take(i as int) =~= cells);
            assert forall|p: Vector3i| #[trigger] cells.contains(p) implies key_error(
                m,
                0,
                p,
            ) is None by {
                let k = choose|k: int| 0 <= k < cells.len() && cells[k] == p;
                assert(key_error(m, 0, cells[k]) is None);
            }
        }
        Ok(changes)
    }

    /// Marks every block with voxels that a box of voxels touches at the finest
    /// level as modified and edited. Returns those, in ZXY order, that newly
    /// wait for an update of the coarser levels.
    pub fn mark_area_modified_checked(
        &mut self,
        voxel_box: Box3i,
        require_lod_updates: bool,
    ) -> (r: Result<Vec<Vector3i>, SharedVoxelDataMutationError>)
        requires
            old(self).wf(),
        ensures
            final(self).wf(),
            exists|reserved: bool| #[trigger]
                mark_outcome(
                    old(self)@,
                    voxel_box,
                    require_lod_updates,
                    reserved,
                    positions_view(r),
                    final(self)@,
                ),
    {
        let ghost before = self@;
        proof {
            self.lemma_wf();
        }
        let reserved = match self.prepare_mark_area_modified(voxel_box, require_lod_updates) {
            Ok(changes) => self.try_reserve(0, 0, changes.len()),
            Err(_) => true,
        };
        let r = self.mark_area_modified_reserved(voxel_box, require_lod_updates, reserved);
        assert(mark_outcome(
            before,
            voxel_box,
            require_lod_updates,
            reserved,
            positions_view(r),
            self@,
        ));
        r
    }

    /// `mark_area_modified_checked`, where `reserved` says whether there is
    /// room.
    pub fn mark_area_modified_reserved(
        &mut self,
        voxel_box: Box3i,
        require_lod_updates: bool,
        reserved: bool,
    ) -> (r: Result<Vec<Vector3i>, SharedVoxelDataMutationError>)
        requires
            old(self).wf(),
        ensures
            final(self).wf(),
            mark_outcome(
                old(self)@,
                voxel_box,
                require_lod_updates,
                reserved,
                positions_view(r),
                final(self)@,
            ),
    {
        let ghost before = self@;
        let ghost m = before.data.lods[0];
        let ghost cells = mark_cells(m, voxel_box, require_lod_updates);
        let ghost fresh = |p: Vector3i|
            require_lod_updates && map_areas::newly_needs_lod(m, p);
        proof {
            self.lemma_wf();
        }
        let changes = match self.prepare_mark_area_modified(voxel_box, require_lod_updates) {
            Ok(changes) => changes,
            Err(e) => {
                return Err(e);
            },
        };
        if voxel_box.is_empty() {
            let none: Vec<Vector3i> = Vec::new();
            assert(none@ =~= Seq::empty());
            return Ok(none);
        }
        proof {
            let all = voxel_data::touched_blocks(voxel_box).cells();
            let wanted = |p: Vector3i| mark_wanted(m, require_lod_updates, p);
            voxel_data::lemma_voxel_box_blocks(voxel_box);
            voxel_data::touched_blocks(voxel_box).lemma_cells();
            collections::lemma_filter_facts(all, wanted);
            assert(cells == all.filter(wanted));
            assert forall|j: int| 0 <= j < cells.len() implies prepared_there(
                before.data.lods,
                changes@[0 + j],
                true,
                require_lod_updates,
                0,
                #[trigger] cells[j],
            ) by {
                assert(cells.contains(cells[j]));
                assert(key_error(m, 0, cells[j]) is None);
                assert(changes@[j] == prepared_mark(m, require_lod_updates, cells[j]));
            }
            lemma_changes_level(
                before.data.lods,
                changes@,
                true,
                require_lod_updates,
                0,
                0,
                cells,
                cells.len() as int,
            );
            assert(cells.take(cells.len() as int) =~= cells);
            let conflict = conflict_of(before, true);
            collections::lemma_first_some_facts(changes@, conflict);
            assert forall|k: int| 0 <= k < changes@.len() implies conflict(
                #[trigger] changes@[k],
            ) is None && before.has_lod(changes@[k].lod_index as int)
                && changes@[k].expected_revision is Present by {
                assert(prepared_there(
                    before.data.lods,
                    changes@[0 + k],
                    true,
                    require_lod_updates,
                    0,
                    cells[k],
                ));
            }
        }
        let mut newly: Vec<Vector3i> = Vec::new();
        let mut i: usize = 0;
        proof {
            collections::lemma_filter_none(cells, fresh);
        }
        while i < changes.len()
            invariant
                i <= changes@.len(),
                cells.len() == changes@.len(),
                fresh == (|p: Vector3i| require_lod_updates && map_areas::newly_needs_lod(m, p)),
                forall|k: int|
                    0 <= k < cells.len() ==> changes@[k] == prepared_mark(
                        m,
                        require_lod_updates,
                        #[trigger] cells[k],
                    ) && m.has_voxels(cells[k]),
                newly@ == cells.take(i as int).filter(fresh),
            decreases changes@.len() - i,
        {
            proof {
                collections::lemma_filter_take(cells, fresh, i as int);
                assert(m.has_voxels(cells[i as int]));
            }
            if changes[i].set_needs_lodding {
                newly.push(changes[i].position);
            }
            i = i + 1;
        }
        assert(cells.take(i as int) =~= cells);
        let short = short_of_room(&changes, reserved);
        proof {
            shared_edits::lemma_refused_for_room(
                changes@,
                level_of(),
                conflict_of(before, true),
                short,
                before.data.lods.len() as int,
            );
        }
        match self.commit_mark_area_modified(&changes, short) {
            Ok(_) => Ok(newly),
            Err(e) => Err(e),
        }
    }
}

/// An element of a list without duplicates is not among those before it.
proof fn lemma_not_before(s: Seq<Vector3i>, i: int)
    requires
        0 <= i < s.len(),
        s.no_duplicates(),
    ensures
        !s.take(i).contains(s[i]),
{
    if s.take(i).contains(s[i]) {
        let k = choose|k: int| 0 <= k < i && s.take(i)[k] == s[i];
        assert(s[k] == s[i]);
    }
}

/// What a list holds after one more element.
pub proof fn lemma_push_contains(s: Seq<Vector3i>, p: Vector3i)
    ensures
        forall|q: Vector3i| #[trigger] s.push(p).contains(q) <==> s.contains(q) || q == p,
        s.no_duplicates() && !s.contains(p) ==> s.push(p).no_duplicates(),
{
    assert forall|q: Vector3i| #[trigger] s.push(p).contains(q) <==> s.contains(q) || q == p by {
        if s.contains(q) {
            let k = choose|k: int| 0 <= k < s.len() && s[k] == q;
            assert(s.push(p)[k] == q);
        }
        assert(s.push(p)[s.len() as int] == p);
        if s.push(p).contains(q) && q != p {
            let k = choose|k: int| 0 <= k < s.push(p).len() && s.push(p)[k] == q;
            assert(s[k] == q);
        }
    }
    if s.no_duplicates() && !s.contains(p) {
        assert forall|i: int, j: int|
            0 <= i < s.push(p).len() && 0 <= j < s.push(p).len() && i != j implies s.push(p)[i]
            != s.push(p)[j] by {
            if i == s.len() {
                assert(s.contains(s[j]));
            } else if j == s.len() {
                assert(s.contains(s[i]));
            }
        }
    }
}

/// The positions of the modified blocks of a map.
pub open spec fn dirty_set(m: MapModel) -> Set<Vector3i> {
    Set::new(|p: Vector3i| map_areas::modified_at(m, p))
}

/// The positions of the modified blocks of a map, in ZXY order.
pub open spec fn dirty_list(m: MapModel) -> Seq<Vector3i> {
    choose|s: Seq<Vector3i>| sorting::lists(s, dirty_set(m))
}

/// A modified block that cannot be changed.
pub open spec fn stuck_at(lods: Seq<MapModel>, l: int, p: Vector3i) -> bool {
    0 <= l < lods.len() && map_areas::modified_at(lods[l], p) && key_error(lods[l], l, p) is Some
}

/// What has to be saved of the modified blocks of a level, with the revisions.
pub open spec fn level_saves(m: MapModel, l: int) -> Seq<SaveModel> {
    dirty_list(m).map_values(|p: Vector3i| shared_views::revisioned_save(m, l, p))
}

/// The changes that take the modified blocks of a level as saved.
pub open spec fn level_changes(m: MapModel, l: int) -> Seq<PreparedBlockMutation> {
    dirty_list(m).map_values(|p: Vector3i| prepared_from(m, l, p, false))
}

/// What has to be saved of the first `n` levels.
pub open spec fn dirty_saves(lods: Seq<MapModel>, n: int) -> Seq<SaveModel>
    decreases n,
{
    if n <= 0 {
        Seq::empty()
    } else {
        dirty_saves(lods, n - 1) + level_saves(lods[n - 1], n - 1)
    }
}

/// The changes that take the modified blocks of the first `n` levels as saved.
pub open spec fn dirty_changes(lods: Seq<MapModel>, n: int) -> Seq<PreparedBlockMutation>
    decreases n,
{
    if n <= 0 {
        Seq::empty()
    } else {
        dirty_changes(lods, n - 1) + level_changes(lods[n - 1], n - 1)
    }
}

/// The map once its modified blocks have been taken as saved.
pub open spec fn consumed(m: MapModel) -> MapModel {
    m.changed(dirty_list(m), map_areas::clean_change()).advanced(dirty_list(m))
}

/// `e` says why a modified block of the first level with such a block cannot be
/// changed.
pub open spec fn stuck_error(lods: Seq<MapModel>, e: SharedVoxelDataMutationError) -> bool {
    exists|l: int, p: Vector3i|
        #![trigger stuck_at(lods, l, p)]
        stuck_at(lods, l, p) && key_error(lods[l], l, p) == Some(e) && forall|k: int, q: Vector3i|
            k < l ==> !#[trigger] stuck_at(lods, k, q)
}

/// The outcome of taking all that is modified for saving.
pub open spec fn consume_outcome(
    before: SharedModel,
    reserved: bool,
    r: Result<Seq<SaveModel>, SharedVoxelDataMutationError>,
    after: SharedModel,
) -> bool {
    let lods = before.data.lods;
    let n = lods.len() as int;
    if exists|l: int, p: Vector3i| #[trigger] stuck_at(lods, l, p) {
        after == before && (r matches Err(e) && stuck_error(lods, e))
    } else {
        shared_edits::change_outcome(
            before,
            if before.closed {
                Some(SharedVoxelDataMutationError::MutationAdmissionClosed)
            } else {
                None
            },
            reserved || dirty_changes(lods, n).len() == 0,
            before.with_lods(Seq::new(lods.len(), |l: int| consumed(lods[l]))),
            dirty_saves(lods, n),
            r,
            after,
        )
    }
}

/// No block of any level is modified.
pub open spec fn nothing_dirty(lods: Seq<MapModel>) -> bool {
    forall|l: int, p: Vector3i|
        0 <= l < lods.len() ==> !#[trigger] map_areas::modified_at(lods[l], p)
}

/// Number of modified blocks of a map.
fn count_dirty(map: &VoxelDataMap) -> (n: usize)
    requires
        map.wf(),
    ensures
        n == dirty_set(map@).len(),
{
    let ghost m = map@;
    let ghost f = |p: Vector3i| map_areas::modified_at(m, p);
    let positions = map.block_positions();
    let ghost all = positions@;
    let mut n: usize = 0;
    let mut i: usize = 0;
    proof {
        collections::lemma_filter_none(all, f);
    }
    while i < positions.len()
        invariant
            i <= all.len(),
            n <= i,
            all == positions@,
            all.to_set() == m.blocks.dom(),
            map.wf(),
            m == map@,
            f == (|p: Vector3i| map_areas::modified_at(m, p)),
            n == all.take(i as int).filter(f).len(),
        decreases all.len() - i,
    {
        let p = positions[i];
        proof {
            collections::lemma_filter_take(all, f, i as int);
            assert(all.to_set().contains(p));
        }
        match map.get_block(p) {
            Some(block) => {
                if block.is_modified() {
                    n = n + 1;
                }
            },
            None => {},
        }
        i = i + 1;
    }
    proof {
        assert(all.take(i as int) =~= all);
        collections::lemma_filter_facts(all, f);
        assert forall|p: Vector3i| all.filter(f).to_set().contains(p) == dirty_set(m).contains(
            p,
        ) by {
            assert(all.to_set().contains(p) == all.contains(p));
        }
        assert(all.filter(f).to_set() =~= dirty_set(m));
        all.filter(f).unique_seq_to_set();
    }
    n
}

/// A list of blocks to be saved, by what it holds.
pub open spec fn saves_view(
    r: Result<Vec<BlockToSave>, SharedVoxelDataMutationError>,
) -> Result<Seq<SaveModel>, SharedVoxelDataMutationError> {
    match r {
        Ok(v) => Ok(map_areas::saves_of(v@)),
        Err(e) => Err(e),
    }
}

/// What one level has to be saved, and the changes that take it as saved.
pub struct DirtyCopies {
    pub changes: Vec<PreparedBlockMutation>,
    pub saves: Vec<BlockToSave>,
}

/// Copies the modified blocks of a level for saving, in ZXY order.
fn copy_dirty_level(map: &VoxelDataMap, lod_index: usize) -> (r: Result<
    DirtyCopies,
    SharedVoxelDataMutationError,
>)
    requires
        map.wf(),
        lod_index < 24,
    ensures
        match r {
            Ok(d) => {
                &&& forall|p: Vector3i| #[trigger]
                    map_areas::modified_at(map@, p) ==> key_error(
                        map@,
                        lod_index as int,
                        p,
                    ) is None
                &&& d.changes@ == level_changes(map@, lod_index as int)
                &&& map_areas::saves_wf(d.saves@)
                &&& map_areas::saves_of(d.saves@) == level_saves(map@, lod_index as int)
                &&& sorting::lists(dirty_list(map@), dirty_set(map@))
                &&& dirty_list(map@).no_duplicates()
            },
            Err(e) => exists|p: Vector3i| #[trigger]
                map_areas::modified_at(map@, p) && key_error(map@, lod_index as int, p) == Some(e),
        },
{
    let ghost m = map@;
    let ghost l = lod_index as int;
    let positions = map.block_positions();
    let mut found: Vec<Vector3i> = Vec::new();
    let mut i: usize = 0;
    while i < positions.len()
        invariant
            i <= positions@.len(),
            map.wf(),
            m == map@,
            positions@.no_duplicates(),
            found@.no_duplicates(),
            forall|p: Vector3i| #[trigger]
                found@.contains(p) <==> positions@.take(i as int).contains(p)
                    && map_areas::modified_at(m, p),
        decreases positions@.len() - i,
    {
        let p = positions[i];
        proof {
            collections::lemma_take_contains(positions@, i as int);
            lemma_not_before(positions@, i as int);
        }
        match map.get_block(p) {
            Some(block) => {
                if block.is_modified() {
                    let ghost before = found@;
                    found.push(p);
                    proof {
                        lemma_push_contains(before, p);
                    }
                }
            },
            None => {},
        }
        i = i + 1;
    }
    let ghost unsorted = found@;
    let sorted = sorting::sort_positions(found);
    let ghost cells = dirty_list(m);
    proof {
        assert(positions@.take(i as int) =~= positions@);
        assert forall|p: Vector3i| unsorted.to_set().contains(p) == dirty_set(m).contains(p) by {
            assert(unsorted.to_set().contains(p) == unsorted.contains(p));
            assert(positions@.to_set().contains(p) == positions@.contains(p));
        }
        assert(unsorted.to_set() =~= dirty_set(m));
        assert(sorting::lists(sorted@, dirty_set(m)));
        sorting::lemma_lists_unique(sorted@, cells, dirty_set(m));
    }
    let ghost change = |p: Vector3i| prepared_from(m, l, p, false);
    let ghost save = |p: Vector3i| shared_views::revisioned_save(m, l, p);
    let mut changes: Vec<PreparedBlockMutation> = Vec::new();
    let mut saves: Vec<BlockToSave> = Vec::new();
    let mut i: usize = 0;
    proof {
        assert(map_areas::saves_of(saves@) =~= cells.take(0).map_values(save));
        assert(changes@ =~= cells.take(0).map_values(change));
    }
    while i < sorted.len()
        invariant
            i <= sorted@.len(),
            map.wf(),
            m == map@,
            l == lod_index,
            lod_index < 24,
            sorted@ == cells,
            sorting::lists(cells, dirty_set(m)),
            change == (|p: Vector3i| prepared_from(m, l, p, false)),
            save == (|p: Vector3i| shared_views::revisioned_save(m, l, p)),
            forall|k: int| 0 <= k < i ==> key_error(m, l, #[trigger] cells[k]) is None,
            changes@ == cells.take(i as int).map_values(change),
            map_areas::saves_wf(saves@),
            map_areas::saves_of(saves@) == cells.take(i as int).map_values(save),
        decreases sorted@.len() - i,
    {
        let p = sorted[i];
        proof {
            assert(cells.contains(cells[i as int]));
            assert(cells.to_set().contains(p));
            assert(map_areas::modified_at(m, p));
        }
        match prepare_block(map, lod_index, p, false) {
            Ok(c) => {
                let ghost before = saves@;
                let voxels = match map.get_block(p) {
                    Some(block) => if block.has_voxels() {
                        Some(block.voxels().copy_to_owned())
                    } else {
                        None
                    },
                    None => None,
                };
                saves.push(
                    BlockToSave {
                        voxels,
                        position: p,
                        lod_index: lod_index as u8,
                        block_revision: c.expected_revision.value(),
                    },
                );
                changes.push(c);
                proof {
                    assert(saves@[before.len() as int]@ == save(p));
                    assert(map_areas::saves_of(saves@) =~= map_areas::saves_of(before).push(
                        save(p),
                    ));
                    assert(cells.take(i + 1).map_values(save) =~= cells.take(i as int).map_values(
                        save,
                    ).push(save(p)));
                    assert(changes@ =~= cells.take(i + 1).map_values(change));
                }
            },
            Err(e) => {
                assert(map_areas::modified_at(m, p) && key_error(m, l, p) == Some(e));
                return Err(e);
            },
        }
        i = i + 1;
    }
    proof {
        assert(cells.take(i as int) =~= cells);
        assert forall|p: Vector3i| #[trigger] map_areas::modified_at(m, p) implies key_error(
            m,
            l,
            p,
        ) is None by {
            assert(dirty_set(m).contains(p));
            assert(cells.to_set().contains(p));
            let k = choose|k: int| 0 <= k < cells.len() && cells[k] == p;
            assert(key_error(m, l, cells[k]) is None);
        }
    }
    Ok(DirtyCopies { changes, saves })
}

/// The changes of the first levels are the first changes.
proof fn lemma_dirty_prefix(lods: Seq<MapModel>, l: int, n: int)
    requires
        0 <= l <= n,
    ensures
        dirty_changes(lods, l).len() <= dirty_changes(lods, n).len(),
        forall|k: int|
            0 <= k < dirty_changes(lods, l).len() ==> #[trigger] dirty_changes(lods, n)[k]
                == dirty_changes(lods, l)[k],
    decreases n - l,
{
    if l < n {
        lemma_dirty_prefix(lods, l, n - 1);
        let shorter = dirty_changes(lods, n - 1);
        assert forall|k: int| 0 <= k < dirty_changes(lods, l).len() implies #[trigger]
            dirty_changes(lods, n)[k] == dirty_changes(lods, l)[k] by {
            assert(shorter[k] == dirty_changes(lods, l)[k]);
        }
    }
}

/// Making the changes of the first `l` levels takes all their modified blocks
/// as saved.
proof fn lemma_dirty_applied(lods: Seq<MapModel>, l: int, n: int)
    requires
        0 <= l <= n == lods.len() < 24,
        forall|k: int, p: Vector3i| !#[trigger] stuck_at(lods, k, p),
        forall|k: int|
            0 <= k < n ==> sorting::lists(
                dirty_list(#[trigger] lods[k]),
                dirty_set(lods[k]),
            ) && dirty_list(lods[k]).no_duplicates(),
    ensures
        changes_applied(
            lods,
            dirty_changes(lods, n),
            false,
            dirty_changes(lods, l).len() as int,
        ) == Seq::new(
            lods.len(),
            |k: int|
                if k < l {
                    consumed(lods[k])
                } else {
                    lods[k]
                },
        ),
    decreases l,
{
    let changes = dirty_changes(lods, n);
    let state = |j: int|
        Seq::new(
            lods.len(),
            |k: int|
                if k < j {
                    consumed(lods[k])
                } else {
                    lods[k]
                },
        );
    if l == 0 {
        assert(state(0) =~= lods);
    } else {
        lemma_dirty_applied(lods, l - 1, n);
        lemma_dirty_prefix(lods, l, n);
        let k = dirty_changes(lods, l - 1).len() as int;
        let m = lods[l - 1];
        let cells = dirty_list(m);
        assert forall|j: int| 0 <= j < cells.len() implies prepared_there(
            lods,
            changes[k + j],
            false,
            false,
            l - 1,
            #[trigger] cells[j],
        ) by {
            assert(cells.contains(cells[j]));
            assert(cells.to_set().contains(cells[j]));
            assert(map_areas::modified_at(m, cells[j]));
            assert(!stuck_at(lods, l - 1, cells[j]));
            assert(dirty_changes(lods, n)[k + j] == dirty_changes(lods, l)[k + j]);
            assert(level_changes(m, l - 1)[j] == prepared_from(m, l - 1, cells[j], false));
        }
        lemma_changes_level(lods, changes, false, false, k, l - 1, cells, cells.len() as int);
        assert(cells.take(cells.len() as int) =~= cells);
        assert(state(l - 1).update(l - 1, consumed(m)) =~= state(l));
    }
}

impl SharedVoxelData {
    /// Copies all that is modified for saving, level by level in ZXY order, and
    /// prepares to take it as saved.
    pub fn prepare_dirty_consumption(&self) -> (r: Result<
        DirtyCopies,
        SharedVoxelDataMutationError,
    >)
        requires
            self.wf(),
        ensures
            match r {
                Ok(d) => {
                    let lods = self@.data.lods;
                    &&& forall|l: int, p: Vector3i| !#[trigger] stuck_at(lods, l, p)
                    &&& d.changes@ == dirty_changes(lods, lods.len() as int)
                    &&& map_areas::saves_wf(d.saves@)
                    &&& map_areas::saves_of(d.saves@) == dirty_saves(lods, lods.len() as int)
                    &&& forall|k: int|
                        0 <= k < lods.len() ==> sorting::lists(
                            dirty_list(#[trigger] lods[k]),
                            dirty_set(lods[k]),
                        ) && dirty_list(lods[k]).no_duplicates()
                },
                Err(e) => stuck_error(self@.data.lods, e),
            },
    {
        let ghost lods = self@.data.lods;
        proof {
            self.lemma_wf();
        }
        let mut changes: Vec<PreparedBlockMutation> = Vec::new();
        let mut saves: Vec<BlockToSave> = Vec::new();
        let n: usize = self.lod_count();
        let mut l: usize = 0;
        assert(map_areas::saves_of(saves@) =~= Seq::empty());
        while l < n
            invariant
                l <= n,
                n == lods.len(),
                n < 24,
                self.wf(),
                lods == self@.data.lods,
                forall|k: int, p: Vector3i| k < l ==> !#[trigger] stuck_at(lods, k, p),
                changes@ == dirty_changes(lods, l as int),
                map_areas::saves_wf(saves@),
                map_areas::saves_of(saves@) == dirty_saves(lods, l as int),
                forall|k: int|
                    0 <= k < l ==> sorting::lists(
                        dirty_list(#[trigger] lods[k]),
                        dirty_set(lods[k]),
                    ) && dirty_list(lods[k]).no_duplicates(),
            decreases n - l,
        {
            match copy_dirty_level(self.lod(l), l) {
                Ok(d) => {
                    let mut d = d;
                    proof {
                        shared_views::lemma_append_saves();
                    }
                    changes.append(&mut d.changes);
                    saves.append(&mut d.saves);
                },
                Err(e) => {
                    proof {
                        let p = choose|p: Vector3i| #[trigger]
                            map_areas::modified_at(lods[l as int], p) && key_error(
                                lods[l as int],
                                l as int,
                                p,
                            ) == Some(e);
                        assert(stuck_at(lods, l as int, p));
                    }
                    return Err(e);
                },
            }
            l = l + 1;
        }
        assert forall|k: int, p: Vector3i| !#[trigger] stuck_at(lods, k, p) by {
            if k < l {
            }
        }
        Ok(DirtyCopies { changes, saves })
    }

    /// Copies all that is modified for saving and takes it as saved. The copies
    /// come level by level in ZXY order, with the revisions of the blocks.
    pub fn consume_all_modifications_checked(&mut self) -> (r: Result<
        Vec<BlockToSave>,
        SharedVoxelDataMutationError,
    >)
        requires
            old(self).wf(),
        ensures
            final(self).wf(),
            r matches Ok(saves) ==> map_areas::saves_wf(saves@),
            exists|reserved: bool| #[trigger]
                consume_outcome(old(self)@, reserved, saves_view(r), final(self)@),
    {
        let ghost before = self@;
        let reserved = self.reserve_dirty();
        let r = self.consume_all_modifications_reserved(reserved);
        assert(consume_outcome(before, reserved, saves_view(r), self@));
        r
    }

    /// Asks for room for the revisions of all blocks that are modified. None is
    /// needed where no block is.
    fn reserve_dirty(&mut self) -> (reserved: bool)
        requires
            old(self).wf(),
        ensures
            final(self).wf(),
            final(self)@ == old(self)@,
            nothing_dirty(old(self)@.data.lods) ==> reserved,
    {
        let mut reserved = true;
        let n: usize = self.lod_count();
        let mut l: usize = 0;
        while l < n
            invariant
                n == old(self)@.data.lods.len(),
                self.wf(),
                self@ == old(self)@,
                nothing_dirty(old(self)@.data.lods) ==> reserved,
            decreases n - l,
        {
            let count: usize = count_dirty(self.lod(l));
            proof {
                let m = old(self)@.data.lods[l as int];
                if nothing_dirty(old(self)@.data.lods) {
                    assert forall|p: Vector3i| !dirty_set(m).contains(p) by {
                        assert(!map_areas::modified_at(old(self)@.data.lods[l as int], p));
                    }
                    assert(dirty_set(m) =~= Set::<Vector3i>::empty());
                }
            }
            if !self.try_reserve(l, 0, count) {
                reserved = false;
            }
            l = l + 1;
        }
        reserved
    }

    /// `consume_all_modifications_checked`, where `reserved` says whether there
    /// is room.
    pub fn consume_all_modifications_reserved(&mut self, reserved: bool) -> (r: Result<
        Vec<BlockToSave>,
        SharedVoxelDataMutationError,
    >)
        requires
            old(self).wf(),
        ensures
            final(self).wf(),
            r matches Ok(saves) ==> map_areas::saves_wf(saves@),
            consume_outcome(old(self)@, reserved, saves_view(r), final(self)@),
    {
        let ghost before = self@;
        let ghost lods = before.data.lods;
        proof {
            self.lemma_wf();
        }
        let copies = match self.prepare_dirty_consumption() {
            Ok(copies) => copies,
            Err(e) => {
                return Err(e);
            },
        };
        proof {
            let n = lods.len() as int;
            lemma_dirty_applied(lods, n, n);
            assert(Seq::new(
                lods.len(),
                |k: int|
                    if k < n {
                        consumed(lods[k])
                    } else {
                        lods[k]
                    },
            ) =~= Seq::new(lods.len(), |l: int| consumed(lods[l])));
            let conflict = conflict_of(before, false);
            collections::lemma_first_some_facts(copies.changes@, conflict);
            assert forall|k: int| 0 <= k < copies.changes@.len() implies conflict(
                #[trigger] copies.changes@[k],
            ) is None && before.has_lod(copies.changes@[k].lod_index as int)
                && copies.changes@[k].expected_revision is Present by {
                lemma_dirty_change(lods, n, k);
            }
        }
        let short = short_of_room(&copies.changes, reserved);
        proof {
            shared_edits::lemma_refused_for_room(
                copies.changes@,
                level_of(),
                conflict_of(before, false),
                short,
                lods.len() as int,
            );
        }
        match self.commit_dirty_consumption(&copies.changes, short) {
            Ok(_) => Ok(copies.saves),
            Err(e) => Err(e),
        }
    }
}

/// Each change is of a modified block, as it is.
proof fn lemma_dirty_change(lods: Seq<MapModel>, n: int, k: int)
    requires
        0 <= n <= lods.len() < 24,
        0 <= k < dirty_changes(lods, n).len(),
        forall|j: int|
            0 <= j < lods.len() ==> sorting::lists(
                dirty_list(#[trigger] lods[j]),
                dirty_set(lods[j]),
            ),
    ensures
        ({
            let c = dirty_changes(lods, n)[k];
            let m = lods[c.lod_index as int];
            &&& c.lod_index < lods.len()
            &&& map_areas::modified_at(m, c.position)
            &&& c.expected_revision == m.key_revision(c.position)
        }),
    decreases n,
{
    let shorter = dirty_changes(lods, n - 1);
    if k < shorter.len() {
        lemma_dirty_change(lods, n - 1, k);
    } else {
        let m = lods[n - 1];
        let cells = dirty_list(m);
        let p = cells[k - shorter.len()];
        assert(level_changes(m, n - 1)[k - shorter.len()] == prepared_from(m, n - 1, p, false));
        assert(cells.contains(p));
        assert(cells.to_set().contains(p));
    }
}

} // verus!
