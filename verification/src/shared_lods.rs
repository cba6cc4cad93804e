//! Carrying edits of shared voxel data to coarser levels of detail.

use crate::boxes;
use crate::boxes::BoxBounds3i;
use crate::buffer_model::BufferModel;
use crate::collections;
use crate::map_areas;
use crate::math::Vector3i;
use crate::mutation_error::SharedVoxelDataMutationError;
use crate::revision;
use crate::revision::VoxelDataKeyRevision;
use crate::shared_data::{SharedModel, SharedVoxelData};
use crate::shared_edits;
use crate::shared_marks;
use crate::sorting;
use crate::voxel_data::{BlockLocation, DataModel};
use crate::voxel_data_block::{BlockModel, VoxelDataBlock};
use crate::voxel_data_lods;
use crate::voxel_data_map;
use crate::voxel_data_map::{MapModel, VoxelDataMap};
use vstd::prelude::*;

verus! {

/// The parents of the first `n` blocks of `work`, each once, in the order in
/// which they first come up.
pub open spec fn parents(work: Seq<Vector3i>, n: int) -> Seq<Vector3i>
    decreases n,
{
    if n <= 0 {
        Seq::empty()
    } else {
        let before = parents(work, n - 1);
        let q = voxel_data_lods::parent_of(work[n - 1]);
        if before.contains(q) {
            before
        } else {
            before.push(q)
        }
    }
}

/// The blocks of level `d` that an update of the given blocks of the finest
/// level changes: those with voxels, and in turn the parents of the level
/// below.
pub open spec fn update_work(d: DataModel, blocks: Seq<Vector3i>, l: int) -> Seq<Vector3i>
    decreases l,
{
    if l <= 0 {
        sorting::listing(
            Set::new(|p: Vector3i| blocks.contains(p) && d.lods[0].has_voxels(p)),
        )
    } else {
        let below = update_work(d, blocks, l - 1);
        parents(below, below.len() as int)
    }
}

/// Why block `q` of level `l` cannot take voxels from the level below: it has
/// none of its own, and either data is streamed or the voxels that would have
/// to be made have no positions.
pub open spec fn destination_error(d: DataModel, l: int, q: Vector3i) -> Option<
    SharedVoxelDataMutationError,
> {
    if d.lods[l].has_voxels(q) {
        None
    } else if d.streaming_enabled {
        Some(
            SharedVoxelDataMutationError::LodDestinationUnavailable {
                position: q,
                lod_index: l as usize,
            },
        )
    } else if !boxes::block_bounds_exist(boxes::single(q), l as nat) {
        Some(SharedVoxelDataMutationError::SpatialBoundsOverflow { lod_index: l as usize })
    } else {
        None
    }
}

/// `destination_error` as a function of the block.
pub open spec fn destination_errors(d: DataModel, l: int) -> spec_fn(Vector3i) -> Option<
    SharedVoxelDataMutationError,
> {
    |q: Vector3i| destination_error(d, l, q)
}

/// The first reason why the levels 1 to `l` cannot be updated.
pub open spec fn update_error(d: DataModel, blocks: Seq<Vector3i>, l: int) -> Option<
    SharedVoxelDataMutationError,
>
    decreases l,
{
    if l <= 0 {
        None
    } else {
        match update_error(d, blocks, l - 1) {
            Some(e) => Some(e),
            None => collections::first_some(update_work(d, blocks, l), destination_errors(d, l)),
        }
    }
}

/// The block at `q` with voxels: its own, or those in `made`.
pub open spec fn destination_base(
    m: MapModel,
    q: Vector3i,
    made: Map<Vector3i, BufferModel>,
) -> BlockModel {
    if m.has_voxels(q) {
        m.blocks[q]
    } else {
        m.with_buffer(q, made[q]).blocks[q]
    }
}

/// A parent once a child has been sampled into it: it is modified, and does not
/// wait for an update of the coarser levels, unless there is none.
pub open spec fn carried_into(
    parent: BlockModel,
    child: BlockModel,
    p: Vector3i,
    last: bool,
) -> BlockModel {
    BlockModel {
        modified: true,
        needs_lodding: last && parent.needs_lodding,
        ..voxel_data_lods::sampled(parent, child, p)
    }
}

/// The blocks of level `m` once the first `n` blocks of `work`, as `below` has
/// them, have been sampled into their parents.
pub open spec fn level_drafts(
    m: MapModel,
    below: Map<Vector3i, BlockModel>,
    work: Seq<Vector3i>,
    made: Map<Vector3i, BufferModel>,
    last: bool,
    n: int,
) -> Map<Vector3i, BlockModel>
    decreases n,
{
    if n <= 0 {
        Map::empty()
    } else {
        let before = level_drafts(m, below, work, made, last, n - 1);
        let p = work[n - 1];
        let q = voxel_data_lods::parent_of(p);
        let parent = if before.contains_key(q) {
            before[q]
        } else {
            destination_base(m, q, made)
        };
        before.insert(q, carried_into(parent, below[p], p, last))
    }
}

/// The blocks of level `l` as the update leaves them, where `made` holds the
/// new voxels of each level.
pub open spec fn update_drafts(
    d: DataModel,
    blocks: Seq<Vector3i>,
    made: Seq<Map<Vector3i, BufferModel>>,
    l: int,
) -> Map<Vector3i, BlockModel>
    decreases l,
{
    if l <= 0 {
        let work = update_work(d, blocks, 0);
        Map::new(
            |p: Vector3i| work.contains(p),
            |p: Vector3i| BlockModel { needs_lodding: false, ..d.lods[0].blocks[p] },
        )
    } else {
        let work = update_work(d, blocks, l - 1);
        level_drafts(
            d.lods[l],
            update_drafts(d, blocks, made, l - 1),
            work,
            made[l],
            l == d.lods.len() - 1,
            work.len() as int,
        )
    }
}

/// `made` holds possible new voxels for the blocks of `work` that have none at
/// level `l`.
pub open spec fn made_at(
    d: DataModel,
    l: int,
    work: Seq<Vector3i>,
    made: Map<Vector3i, BufferModel>,
) -> bool {
    forall|q: Vector3i| #[trigger]
        work.contains(q) && !d.lods[l].has_voxels(q) ==> voxel_data_lods::generated_for(
            d.generator,
            d.format,
            q,
            l as nat,
            made[q],
        )
}

/// `made` holds possible new voxels for the levels 1 to `l`.
pub open spec fn made_below(
    d: DataModel,
    blocks: Seq<Vector3i>,
    made: Seq<Map<Vector3i, BufferModel>>,
    l: int,
) -> bool {
    forall|k: int|
        1 <= k <= l ==> made_at(d, k, #[trigger] update_work(d, blocks, k), made[k])
}

/// A new content of one block, prepared when its key had a given revision.
pub struct PreparedLodBlockMutation {
    pub position: Vector3i,
    pub lod_index: usize,
    pub expected_revision: VoxelDataKeyRevision,
    pub next_revision: u64,
    pub bounds: BoxBounds3i,
    pub block: VoxelDataBlock,
}

/// What a prepared content holds.
#[verifier::ext_equal]
pub struct LodChangeModel {
    pub position: Vector3i,
    pub lod_index: usize,
    pub expected_revision: VoxelDataKeyRevision,
    pub next_revision: u64,
    pub bounds: BoxBounds3i,
    pub block: BlockModel,
}

impl View for PreparedLodBlockMutation {
    type V = LodChangeModel;

    open spec fn view(&self) -> LodChangeModel {
        LodChangeModel {
            position: self.position,
            lod_index: self.lod_index,
            expected_revision: self.expected_revision,
            next_revision: self.next_revision,
            bounds: self.bounds,
            block: self.block@,
        }
    }
}

/// What a list of prepared contents holds.
pub open spec fn changes_of(s: Seq<PreparedLodBlockMutation>) -> Seq<LodChangeModel> {
    s.map_values(|c: PreparedLodBlockMutation| c@)
}

/// The content prepared for block `p` of a level.
pub open spec fn lod_change(m: MapModel, l: int, p: Vector3i, block: BlockModel) -> LodChangeModel {
    LodChangeModel {
        position: p,
        lod_index: l as usize,
        expected_revision: m.key_revision(p),
        next_revision: (m.revision(p) + 1) as u64,
        bounds: boxes::block_bounds(boxes::single(p), l as nat),
        block,
    }
}

/// The contents prepared for one level, in ZXY order.
pub open spec fn level_lod_changes(m: MapModel, l: int, drafts: Map<Vector3i, BlockModel>) -> Seq<
    LodChangeModel,
> {
    sorting::listing(drafts.dom()).map_values(|p: Vector3i| lod_change(m, l, p, drafts[p]))
}

/// The contents prepared for the first `n` levels.
pub open spec fn lod_changes(
    lods: Seq<MapModel>,
    drafts: Seq<Map<Vector3i, BlockModel>>,
    n: int,
) -> Seq<LodChangeModel>
    decreases n,
{
    if n <= 0 {
        Seq::empty()
    } else {
        lod_changes(lods, drafts, n - 1) + level_lod_changes(lods[n - 1], n - 1, drafts[n - 1])
    }
}

/// The blocks that the first `n` levels get, level by level in ZXY order.
pub open spec fn updated_locations(drafts: Seq<Map<Vector3i, BlockModel>>, n: int) -> Seq<
    BlockLocation,
>
    decreases n,
{
    if n <= 0 {
        Seq::empty()
    } else {
        updated_locations(drafts, n - 1) + sorting::listing(drafts[n - 1].dom()).map_values(
            |p: Vector3i| BlockLocation { position: p, lod_index: (n - 1) as u8 },
        )
    }
}

/// The levels after the first `n` prepared contents have been put in.
pub open spec fn lod_changes_applied(
    lods: Seq<MapModel>,
    changes: Seq<LodChangeModel>,
    n: int,
) -> Seq<MapModel>
    decreases n,
{
    if n <= 0 {
        lods
    } else {
        let before = lod_changes_applied(lods, changes, n - 1);
        let c = changes[n - 1];
        before.update(
            c.lod_index as int,
            before[c.lod_index as int].with_block(c.position, c.block).with_revision(
                c.position,
                c.next_revision,
            ),
        )
    }
}

/// The conflict, if the key of a block no longer has the revision that its new
/// content was prepared for.
pub open spec fn lod_conflict(s: SharedModel) -> spec_fn(LodChangeModel) -> Option<
    SharedVoxelDataMutationError,
> {
    |c: LodChangeModel|
        {
            let actual = s.data.lods[c.lod_index as int].key_revision(c.position);
            if actual != c.expected_revision {
                Some(
                    SharedVoxelDataMutationError::ConcurrentDataMutation {
                        position: c.position,
                        lod_index: c.lod_index,
                        expected_revision: c.expected_revision,
                        actual_revision: actual,
                    },
                )
            } else {
                None
            }
        }
}

/// The level of a prepared content.
pub open spec fn lod_level() -> spec_fn(LodChangeModel) -> int {
    |c: LodChangeModel| c.lod_index as int
}

/// Why prepared contents cannot be put in, where `short` is the level that has no
/// room for its contents.
pub open spec fn lod_refusal(
    s: SharedModel,
    settings_revision: u64,
    changes: Seq<LodChangeModel>,
    short: Option<usize>,
) -> Option<SharedVoxelDataMutationError> {
    if s.closed {
        Some(SharedVoxelDataMutationError::MutationAdmissionClosed)
    } else if changes.len() == 0 {
        None
    } else if s.settings_revision != settings_revision {
        Some(
            SharedVoxelDataMutationError::ConcurrentSettingsMutation {
                expected_revision: settings_revision,
                actual_revision: s.settings_revision,
            },
        )
    } else {
        shared_edits::refusal_below(
            changes,
            lod_level(),
            lod_conflict(s),
            short,
            s.data.lods.len() as int,
        )
    }
}

/// The contents fit the data: existing levels, blocks of the right extent.
pub open spec fn lod_changes_fit(s: SharedModel, changes: Seq<PreparedLodBlockMutation>) -> bool {
    forall|k: int|
        0 <= k < changes.len() ==> s.has_lod((#[trigger] changes[k]).lod_index as int)
            && changes[k].block.wf() && voxel_data_map::block_fits(changes[k].block@)
}

proof fn lemma_applied_len(lods: Seq<MapModel>, changes: Seq<LodChangeModel>, n: int)
    requires
        n <= changes.len(),
        forall|k: int| 0 <= k < changes.len() ==> (#[trigger] changes[k]).lod_index < lods.len(),
    ensures
        lod_changes_applied(lods, changes, n).len() == lods.len(),
    decreases n,
{
    if n > 0 {
        lemma_applied_len(lods, changes, n - 1);
    }
}

impl SharedVoxelData {
    /// The first conflict that the contents for a level meet, and whether there
    /// are any contents.
    fn find_lod_conflict(&self, changes: &Vec<PreparedLodBlockMutation>, l: usize) -> (r: (
        Option<SharedVoxelDataMutationError>,
        bool,
    ))
        requires
            self.wf(),
            lod_changes_fit(self@, changes@),
        ensures
            r.0 == shared_edits::level_conflict(
                changes_of(changes@),
                lod_level(),
                lod_conflict(self@),
                l as int,
            ),
            r.0 is None ==> r.1 == shared_edits::changes_level(
                changes_of(changes@),
                lod_level(),
                l as int,
            ),
    {
        let ghost models = changes_of(changes@);
        let ghost level = lod_level();
        let ghost here = shared_edits::at_level(level, lod_conflict(self@), l as int);
        let mut any = false;
        let mut i: usize = 0;
        assert(collections::first_some(models.take(0), here) is None);
        while i < changes.len()
            invariant
                i <= changes@.len(),
                models == changes_of(changes@),
                self.wf(),
                lod_changes_fit(self@, changes@),
                level == lod_level(),
                here == shared_edits::at_level(level, lod_conflict(self@), l as int),
                collections::first_some(models.take(i as int), here) is None,
                any == exists|k: int| 0 <= k < i && level(#[trigger] models[k]) == l,
            decreases changes@.len() - i,
        {
            proof {
                collections::lemma_first_some_take(models, here, i as int);
                assert(models[i as int] == changes@[i as int]@);
                assert(level(models[i as int]) == changes@[i as int].lod_index);
            }
            let c = &changes[i];
            if c.lod_index == l {
                any = true;
                let actual_revision = revision::current_key_revision(self.lod(l), c.position);
                if actual_revision != c.expected_revision {
                    let error = SharedVoxelDataMutationError::ConcurrentDataMutation {
                        position: c.position,
                        lod_index: c.lod_index,
                        expected_revision: c.expected_revision,
                        actual_revision,
                    };
                    proof {
                        assert(here(models[i as int]) == Some(error));
                        collections::lemma_first_some_prefix(models, here, i + 1);
                    }
                    return (Some(error), true);
                }
            }
            i = i + 1;
        }
        assert(models.take(i as int) =~= models);
        (None, any)
    }

    /// Puts in prepared contents of blocks, all or none. `short` is the level
    /// that has no room for its contents.
    pub fn commit_lod_updates(
        &mut self,
        settings_revision: u64,
        changes: Vec<PreparedLodBlockMutation>,
        short: Option<usize>,
    ) -> (r: Result<(), SharedVoxelDataMutationError>)
        requires
            old(self).wf(),
            lod_changes_fit(old(self)@, changes@),
        ensures
            final(self).wf(),
            shared_edits::change_outcome(
                old(self)@,
                lod_refusal(old(self)@, settings_revision, changes_of(changes@), short),
                true,
                old(self)@.with_lods(
                    lod_changes_applied(
                        old(self)@.data.lods,
                        changes_of(changes@),
                        changes@.len() as int,
                    ),
                ),
                (),
                r,
                final(self)@,
            ),
    {
        let ghost before = self@;
        let ghost lods = before.data.lods;
        let ghost models = changes_of(changes@);
        let ghost conflict = lod_conflict(before);
        proof {
            self.lemma_wf();
            assert(before.with_lods(lods) == before);
        }
        if self.is_mutation_admission_closed() {
            return Err(SharedVoxelDataMutationError::MutationAdmissionClosed);
        }
        if changes.len() == 0 {
            return Ok(());
        }
        let actual_revision: u64 = self.settings_revision();
        if actual_revision != settings_revision {
            return Err(
                SharedVoxelDataMutationError::ConcurrentSettingsMutation {
                    expected_revision: settings_revision,
                    actual_revision,
                },
            );
        }
        let ghost level = lod_level();
        let n: usize = self.lod_count();
        let mut l: usize = 0;
        while l < n
            invariant
                l <= n,
                n == lods.len(),
                lods == before.data.lods,
                models == changes_of(changes@),
                self.wf(),
                self@ == before,
                !before.closed,
                before.settings_revision == settings_revision,
                changes@.len() > 0,
                lod_changes_fit(before, changes@),
                level == lod_level(),
                conflict == lod_conflict(before),
                shared_edits::refusal_below(models, level, conflict, short, l as int) is None,
            decreases n - l,
        {
            let (found, any) = self.find_lod_conflict(&changes, l);
            proof {
                let next = shared_edits::refusal_below(models, level, conflict, short, l + 1);
                if next is Some {
                    shared_edits::lemma_refusal_stays(
                        models,
                        level,
                        conflict,
                        short,
                        l + 1,
                        n as int,
                    );
                }
            }
            match found {
                Some(e) => {
                    return Err(e);
                },
                None => {},
            }
            if any && short == Some(l) {
                return Err(SharedVoxelDataMutationError::CapacityReservationFailed);
            }
            l = l + 1;
        }
        self.apply_lod_changes(changes);
        Ok(())
    }

    /// Puts in prepared contents, once nothing speaks against them.
    fn apply_lod_changes(&mut self, changes: Vec<PreparedLodBlockMutation>)
        requires
            old(self).wf(),
            lod_changes_fit(old(self)@, changes@),
        ensures
            final(self).wf(),
            final(self)@ == old(self)@.with_lods(
                lod_changes_applied(
                    old(self)@.data.lods,
                    changes_of(changes@),
                    changes@.len() as int,
                ),
            ),
    {
        let ghost before = self@;
        let ghost lods = before.data.lods;
        let ghost models = changes_of(changes@);
        let ghost all = changes@;
        assert(before.with_lods(lods) == before);
        let n: usize = changes.len();
        let mut rest = reversed(changes);
        let mut i: usize = 0;
        while i < n
            invariant
                i <= n,
                n == all.len(),
                models == changes_of(all),
                self.wf(),
                lods == before.data.lods,
                lod_changes_fit(before, all),
                rest@.len() == n - i,
                forall|k: int| 0 <= k < rest@.len() ==> #[trigger] rest@[k] == all[n - 1 - k],
                self@ == before.with_lods(lod_changes_applied(lods, models, i as int)),
            decreases n - i,
        {
            proof {
                assert(rest@[rest@.len() - 1] == all[i as int]);
                assert forall|k: int| 0 <= k < models.len() implies (
                #[trigger] models[k]).lod_index < lods.len() by {
                    assert(models[k] == all[k]@);
                }
                lemma_applied_len(lods, models, i as int);
            }
            match rest.pop() {
                Some(c) => {
                    assert(c@ == models[i as int]);
                    let map = self.lod_mut(c.lod_index);
                    map.set_block(c.position, c.block, true);
                    map.commit_key_revision(c.position, c.next_revision);
                },
                None => {},
            }
            i = i + 1;
        }
    }
}

/// A list the other way round.
fn reversed<T>(items: Vec<T>) -> (r: Vec<T>)
    ensures
        r@.len() == items@.len(),
        forall|k: int| 0 <= k < r@.len() ==> #[trigger] r@[k] == items@[items@.len() - 1 - k],
{
    let ghost all = items@;
    let mut rest = items;
    let mut r: Vec<T> = Vec::new();
    while rest.len() > 0
        invariant
            rest@.len() + r@.len() == all.len(),
            forall|k: int| 0 <= k < rest@.len() ==> #[trigger] rest@[k] == all[k],
            forall|k: int| 0 <= k < r@.len() ==> #[trigger] r@[k] == all[all.len() - 1 - k],
        decreases rest@.len(),
    {
        assert(rest@[rest@.len() - 1] == all[rest@.len() - 1]);
        match rest.pop() {
            Some(item) => r.push(item),
            None => {},
        }
    }
    r
}

/// Parents are all different, and have a child among the blocks; a longer list
/// of blocks only adds parents.
pub proof fn lemma_parents(work: Seq<Vector3i>, n: int)
    requires
        0 <= n <= work.len(),
    ensures
        parents(work, n).no_duplicates(),
        forall|k: int|
            0 <= k < n ==> parents(work, n).contains(
                voxel_data_lods::parent_of(#[trigger] work[k]),
            ),
    decreases n,
{
    if n > 0 {
        lemma_parents(work, n - 1);
        let before = parents(work, n - 1);
        let q = voxel_data_lods::parent_of(work[n - 1]);
        shared_marks::lemma_push_contains(before, q);
        assert(parents(work, n).contains(q));
    }
}

proof fn lemma_parents_prefix(work: Seq<Vector3i>, i: int, n: int)
    requires
        0 <= i <= n <= work.len(),
    ensures
        parents(work, i).len() <= parents(work, n).len(),
        parents(work, n).take(parents(work, i).len() as int) == parents(work, i),
    decreases n - i,
{
    if i < n {
        lemma_parents_prefix(work, i, n - 1);
        let a = parents(work, i);
        let b = parents(work, n - 1);
        let c = parents(work, n);
        assert(c.take(a.len() as int) =~= b.take(a.len() as int));
    } else {
        assert(parents(work, n).take(parents(work, i).len() as int) =~= parents(work, i));
    }
}

/// The drafts of a level are those of the parents.
pub proof fn lemma_level_drafts(
    m: MapModel,
    below: Map<Vector3i, BlockModel>,
    work: Seq<Vector3i>,
    made: Map<Vector3i, BufferModel>,
    last: bool,
    n: int,
)
    requires
        0 <= n <= work.len(),
    ensures
        forall|q: Vector3i| #[trigger]
            level_drafts(m, below, work, made, last, n).contains_key(q) <==> parents(
                work,
                n,
            ).contains(q),
    decreases n,
{
    if n > 0 {
        lemma_level_drafts(m, below, work, made, last, n - 1);
        let before = parents(work, n - 1);
        let p = voxel_data_lods::parent_of(work[n - 1]);
        shared_marks::lemma_push_contains(before, p);
        let earlier = level_drafts(m, below, work, made, last, n - 1);
        assert forall|q: Vector3i| #[trigger]
            level_drafts(m, below, work, made, last, n).contains_key(q) <==> parents(
                work,
                n,
            ).contains(q) by {
            assert(earlier.contains_key(q) <==> before.contains(q));
        }
    }
}

/// New voxels for other blocks do not matter.
proof fn lemma_level_drafts_made(
    m: MapModel,
    below: Map<Vector3i, BlockModel>,
    work: Seq<Vector3i>,
    a: Map<Vector3i, BufferModel>,
    b: Map<Vector3i, BufferModel>,
    last: bool,
    n: int,
)
    requires
        0 <= n <= work.len(),
        forall|q: Vector3i| #[trigger]
            parents(work, n).contains(q) && !m.has_voxels(q) ==> a[q] == b[q],
    ensures
        level_drafts(m, below, work, a, last, n) == level_drafts(m, below, work, b, last, n),
    decreases n,
{
    if n > 0 {
        let before = parents(work, n - 1);
        let q = voxel_data_lods::parent_of(work[n - 1]);
        shared_marks::lemma_push_contains(before, q);
        lemma_parents(work, n);
        assert(parents(work, n).contains(voxel_data_lods::parent_of(work[n - 1])));
        assert forall|p: Vector3i| #[trigger]
            parents(work, n - 1).contains(p) && !m.has_voxels(p) implies a[p] == b[p] by {
            assert(parents(work, n).contains(p));
        }
        lemma_level_drafts_made(m, below, work, a, b, last, n - 1);
    }
}

/// Blocks that a level is to get.
pub struct DraftLevel {
    map: VoxelDataMap,
    work: Vec<Vector3i>,
}

impl DraftLevel {
    /// The drafts are at the listed positions; each has voxels, fits, and is
    /// well-formed.
    closed spec fn wf(&self) -> bool {
        &&& self.map.wf()
        &&& self.work@.no_duplicates()
        &&& forall|p: Vector3i| #[trigger] self.map@.has(p) <==> self.work@.contains(p)
        &&& forall|p: Vector3i| #[trigger] self.map@.has(p) ==> self.map@.has_voxels(p)
    }

    closed spec fn blocks(&self) -> Map<Vector3i, BlockModel> {
        self.map@.blocks
    }

    closed spec fn positions(&self) -> Seq<Vector3i> {
        self.work@
    }
}

impl SharedVoxelData {
    /// The given blocks of the finest level that have voxels, as an update
    /// leaves them.
    fn draft_finest(&self, blocks: &[Vector3i]) -> (r: DraftLevel)
        requires
            self.wf(),
        ensures
            r.wf(),
            r.positions() == update_work(self@.data, blocks@, 0),
            forall|made: Seq<Map<Vector3i, BufferModel>>|
                r.blocks() == #[trigger] update_drafts(self@.data, blocks@, made, 0),
    {
        let ghost d = self@.data;
        let ghost m = d.lods[0];
        let ghost wanted = |p: Vector3i| m.has_voxels(p);
        proof {
            self.lemma_wf();
        }
        let sorted = sorting::sort_unique(blocks);
        let live = self.lod(0);
        let mut map = VoxelDataMap::new(0);
        let mut work: Vec<Vector3i> = Vec::new();
        let mut i: usize = 0;
        proof {
            collections::lemma_filter_none(sorted@, wanted);
            sorting::lemma_listing(sorted@, blocks@.to_set());
        }
        while i < sorted.len()
            invariant
                i <= sorted@.len(),
                sorted@.no_duplicates(),
                live.wf(),
                live@ == m,
                map.wf(),
                wanted == (|p: Vector3i| m.has_voxels(p)),
                work@ == sorted@.take(i as int).filter(wanted),
                forall|p: Vector3i| #[trigger]
                    map@.has(p) <==> sorted@.take(i as int).contains(p) && m.has_voxels(p),
                forall|p: Vector3i| #[trigger]
                    map@.has(p) ==> map@.blocks[p] == (BlockModel {
                        needs_lodding: false,
                        ..m.blocks[p]
                    }),
            decreases sorted@.len() - i,
        {
            let p = sorted[i];
            let ghost before = map@;
            proof {
                collections::lemma_take_contains(sorted@, i as int);
                collections::lemma_filter_take(sorted@, wanted, i as int);
                live.lemma_wf();
            }
            match live.get_block(p) {
                Some(block) => {
                    if block.has_voxels() {
                        let mut copy = map_areas::clone_block(block);
                        copy.set_needs_lodding(false);
                        map.set_block(p, copy, true);
                        work.push(p);
                    }
                },
                None => {},
            }
            proof {
                assert forall|q: Vector3i| #[trigger] map@.has(q) <==> sorted@.take(
                    i + 1,
                ).contains(q) && m.has_voxels(q) by {
                    assert(before.has(q) <==> sorted@.take(i as int).contains(q)
                        && m.has_voxels(q));
                }
                assert forall|q: Vector3i| #[trigger] map@.has(q) implies map@.blocks[q] == (
                BlockModel { needs_lodding: false, ..m.blocks[q] }) by {
                    assert(before.has(q) || q == p);
                }
            }
            i = i + 1;
        }
        proof {
            assert(sorted@.take(i as int) =~= sorted@);
            sorting::lemma_filter_lists(sorted@, wanted);
            let set = Set::new(|p: Vector3i| blocks@.contains(p) && m.has_voxels(p));
            let kept = Set::new(|p: Vector3i| sorted@.contains(p) && wanted(p));
            assert forall|p: Vector3i| kept.contains(p) == set.contains(p) by {
                assert(blocks@.to_set().contains(p) == blocks@.contains(p));
                assert(sorted@.contains(p) <==> blocks@.to_set().contains(p));
            }
            assert(kept =~= set);
            sorting::lemma_listing(work@, set);
            assert forall|made: Seq<Map<Vector3i, BufferModel>>|
                map@.blocks == #[trigger] update_drafts(d, blocks@, made, 0) by {
                assert forall|p: Vector3i| map@.blocks.contains_key(p) == work@.contains(p) by {
                    assert(map@.has(p) <==> sorted@.contains(p) && m.has_voxels(p));
                    assert(work@.contains(p) <==> set.contains(p));
                }
                assert forall|p: Vector3i| map@.blocks.contains_key(p) implies map@.blocks[p]
                    == (BlockModel { needs_lodding: false, ..m.blocks[p] }) by {
                    assert(map@.has(p));
                }
                assert(map@.blocks =~= update_drafts(d, blocks@, made, 0));
            }
            assert forall|p: Vector3i| #[trigger] map@.has(p) <==> work@.contains(p) by {
                assert(work@.contains(p) <==> set.contains(p));
            }
        }
        DraftLevel { map, work }
    }
}

/// A level drafted from the one below it.
pub open spec fn drafted_from(
    d: DataModel,
    l: int,
    below: Map<Vector3i, BlockModel>,
    work: Seq<Vector3i>,
    made: Map<Vector3i, BufferModel>,
    drafts: Map<Vector3i, BlockModel>,
) -> bool {
    let n = work.len() as int;
    &&& made_at(d, l, parents(work, n), made)
    &&& drafts == level_drafts(d.lods[l], below, work, made, l == d.lods.len() - 1, n)
}

impl SharedVoxelData {
    /// The block that drafts of the level below are to be sampled into: a copy
    /// with voxels, new ones if it has none.
    fn draft_destination(&self, l: usize, q: Vector3i) -> (r: Result<
        VoxelDataBlock,
        SharedVoxelDataMutationError,
    >)
        requires
            self.wf(),
            1 <= l < self@.data.lods.len(),
        ensures
            match r {
                Ok(b) => {
                    &&& destination_error(self@.data, l as int, q) is None
                    &&& b.wf()
                    &&& b@.voxels is Some
                    &&& voxel_data_map::block_fits(b@)
                    &&& exists|made: BufferModel|
                        (self@.data.lods[l as int].has_voxels(q)
                            || #[trigger] voxel_data_lods::generated_for(
                            self@.data.generator,
                            self@.data.format,
                            q,
                            l as nat,
                            made,
                        )) && b@ == destination_base(
                            self@.data.lods[l as int],
                            q,
                            Map::empty().insert(q, made),
                        )
                },
                Err(e) => destination_error(self@.data, l as int, q) == Some(e),
            },
    {
        let ghost d = self@.data;
        let ghost m = d.lods[l as int];
        proof {
            self.lemma_wf();
            assert(m.wf());
        }
        let snapshot = self.block_snapshot(q, l);
        let needs_voxels = match &snapshot {
            Some(block) => !block.has_voxels(),
            None => true,
        };
        if !needs_voxels {
            match snapshot {
                Some(block) => {
                    proof {
                        let any = arbitrary::<BufferModel>();
                        let g = voxel_data_lods::generated_for(
                            d.generator,
                            d.format,
                            q,
                            l as nat,
                            any,
                        );
                        assert(block@ == destination_base(m, q, Map::empty().insert(q, any)));
                    }
                    return Ok(block);
                },
                None => {},
            }
            assert(false);
        }
        let settings = self.settings_snapshot();
        if settings.streaming_enabled {
            return Err(
                SharedVoxelDataMutationError::LodDestinationUnavailable {
                    position: q,
                    lod_index: l,
                },
            );
        }
        if boxes::checked_lod_block_bounds(shared_edits::single_block(q), l).is_none() {
            return Err(SharedVoxelDataMutationError::SpatialBoundsOverflow { lod_index: l });
        }
        let voxels = voxel_data_lods::generate_block_voxels(
            &settings.generator,
            settings.format,
            q,
            l,
        );
        let ghost made = voxels@;
        let block = match snapshot {
            Some(block) => {
                let mut block = block;
                block.set_voxels(voxels);
                block
            },
            None => VoxelDataBlock::with_voxels(voxels, l as u8),
        };
        proof {
            assert(voxel_data_lods::generated_for(d.generator, d.format, q, l as nat, made));
            assert(Map::<Vector3i, BufferModel>::empty().insert(q, made)[q] == made);
            assert(block@ == destination_base(m, q, Map::empty().insert(q, made)));
        }
        Ok(block)
    }

    /// The blocks of level `l` that have children among the drafts of the level
    /// below, with the drafts sampled into them.
    fn draft_coarser(&self, below: &DraftLevel, l: usize) -> (r: Result<
        DraftLevel,
        SharedVoxelDataMutationError,
    >)
        requires
            self.wf(),
            below.wf(),
            1 <= l < self@.data.lods.len(),
        ensures
            match r {
                Ok(n) => {
                    let work = below.positions();
                    &&& n.wf()
                    &&& n.positions() == parents(work, work.len() as int)
                    &&& collections::first_some(
                        n.positions(),
                        destination_errors(self@.data, l as int),
                    ) is None
                    &&& exists|made: Map<Vector3i, BufferModel>| #[trigger]
                        drafted_from(
                            self@.data,
                            l as int,
                            below.blocks(),
                            work,
                            made,
                            n.blocks(),
                        )
                },
                Err(e) => collections::first_some(
                    parents(below.positions(), below.positions().len() as int),
                    destination_errors(self@.data, l as int),
                ) == Some(e),
            },
    {
        let ghost d = self@.data;
        let ghost m = d.lods[l as int];
        let ghost work = below.work@;
        let ghost children = below.map@.blocks;
        let ghost error = destination_errors(d, l as int);
        let ghost mut made: Map<Vector3i, BufferModel> = Map::empty();
        proof {
            self.lemma_wf();
        }
        let last = l == self.lod_count() - 1;
        let mut map = VoxelDataMap::new(l as u8);
        let mut next: Vec<Vector3i> = Vec::new();
        let mut i: usize = 0;
        proof {
            assert(map@.blocks =~= level_drafts(m, children, work, made, last, 0));
        }
        while i < below.work.len()
            invariant
                i <= work.len(),
                work == below.work@,
                children == below.map@.blocks,
                below.wf(),
                self.wf(),
                d == self@.data,
                d.wf(),
                m == d.lods[l as int],
                1 <= l < d.lods.len(),
                last == (l == d.lods.len() - 1),
                error == destination_errors(d, l as int),
                map.wf(),
                next@ == parents(work, i as int),
                collections::first_some(next@, error) is None,
                made_at(d, l as int, next@, made),
                map@.blocks == level_drafts(m, children, work, made, last, i as int),
                forall|q: Vector3i| #[trigger] map@.has(q) ==> map@.has_voxels(q),
            decreases work.len() - i,
        {
            let p = below.work[i];
            let q = p.floor_div(2);
            let ghost before = map@;
            let ghost listed = next@;
            proof {
                assert(q == voxel_data_lods::parent_of(p));
                assert(work.contains(work[i as int]));
                assert(below.map@.has(p));
                assert(below.map@.has_voxels(p));
                below.map.lemma_wf();
                lemma_level_drafts(m, children, work, made, last, i as int);
                lemma_parents(work, i as int);
                assert(before.has(q) <==> listed.contains(q));
                shared_marks::lemma_push_contains(listed, q);
            }
            let mut parent = match map.remove_block(q) {
                Some(block) => {
                    assert(before.has_voxels(q));
                    block
                },
                None => {
                    match self.draft_destination(l, q) {
                        Ok(block) => {
                            proof {
                                let fresh = choose|fresh: BufferModel|
                                    (m.has_voxels(q) || #[trigger] voxel_data_lods::generated_for(
                                        d.generator,
                                        d.format,
                                        q,
                                        l as nat,
                                        fresh,
                                    )) && block@ == destination_base(
                                        m,
                                        q,
                                        Map::empty().insert(q, fresh),
                                    );
                                let longer = made.insert(q, fresh);
                                assert forall|x: Vector3i| #[trigger]
                                    parents(work, i as int).contains(x) && !m.has_voxels(
                                        x,
                                    ) implies made[x] == longer[x] by {
                                    assert(x != q);
                                }
                                lemma_level_drafts_made(
                                    m,
                                    children,
                                    work,
                                    made,
                                    longer,
                                    last,
                                    i as int,
                                );
                                assert(block@ == destination_base(m, q, longer));
                                assert forall|x: Vector3i| #[trigger]
                                    listed.push(q).contains(x) && !d.lods[l as int].has_voxels(
                                        x,
                                    ) implies voxel_data_lods::generated_for(
                                    d.generator,
                                    d.format,
                                    x,
                                    l as nat,
                                    longer[x],
                                ) by {
                                    if x != q {
                                        assert(listed.contains(x));
                                        assert(longer[x] == made[x]);
                                    }
                                }
                                made = longer;
                                assert(listed.push(q).take(listed.len() as int) =~= listed);
                                assert(listed.push(q).take(listed.len() as int + 1) =~= listed.push(q));
                                collections::lemma_first_some_take(
                                    listed.push(q),
                                    error,
                                    listed.len() as int,
                                );
                            }
                            next.push(q);
                            block
                        },
                        Err(e) => {
                            proof {
                                let n = work.len() as int;
                                let longer = listed.push(q);
                                assert(parents(work, i + 1) == longer);
                                lemma_parents_prefix(work, i + 1, n);
                                assert(longer.take(listed.len() as int) =~= listed);
                                assert(longer.take(listed.len() as int + 1) =~= longer);
                                collections::lemma_first_some_take(
                                    longer,
                                    error,
                                    listed.len() as int,
                                );
                                collections::lemma_first_some_prefix(
                                    parents(work, n),
                                    error,
                                    longer.len() as int,
                                );
                            }
                            return Err(e);
                        },
                    }
                },
            };
            proof {
                assert(next@ == parents(work, i + 1));
            }
            match below.map.get_block(p) {
                Some(child) => {
                    voxel_data_lods::sample_into_parent(&mut parent, child, p);
                },
                None => {
                    assert(false);
                },
            }
            parent.set_modified(true);
            if !last {
                parent.set_needs_lodding(false);
            }
            map.set_block(q, parent, true);
            proof {
                assert(map@.blocks =~= level_drafts(m, children, work, made, last, i + 1));
                assert forall|x: Vector3i| #[trigger] map@.has(x) implies map@.has_voxels(x) by {
                    if x != q {
                        assert(before.has(x));
                    }
                }
            }
            i = i + 1;
        }
        let n = DraftLevel { map, work: next };
        proof {
            lemma_level_drafts(m, children, work, made, last, i as int);
            lemma_parents(work, i as int);
            assert forall|q: Vector3i| #[trigger] n.map@.has(q) <==> n.work@.contains(q) by {
                assert(level_drafts(m, children, work, made, last, i as int).contains_key(q)
                    <==> parents(work, i as int).contains(q));
            }
            assert(drafted_from(d, l as int, below.blocks(), work, made, n.blocks()));
        }
        Ok(n)
    }
}

/// The map with drafts put in for the listed blocks; their keys get one
/// revision more.
pub open spec fn with_drafts(
    m: MapModel,
    drafts: Map<Vector3i, BlockModel>,
    cells: Seq<Vector3i>,
) -> MapModel {
    MapModel {
        blocks: Map::new(
            |p: Vector3i| m.has(p) || cells.contains(p),
            |p: Vector3i|
                if cells.contains(p) {
                    drafts[p]
                } else {
                    m.blocks[p]
                },
        ),
        ..m
    }.advanced(cells)
}

/// The drafts of all levels.
pub open spec fn all_drafts(
    d: DataModel,
    blocks: Seq<Vector3i>,
    made: Seq<Map<Vector3i, BufferModel>>,
) -> Seq<Map<Vector3i, BlockModel>> {
    Seq::new(d.lods.len(), |l: int| update_drafts(d, blocks, made, l))
}

/// A block that an update would change, but that cannot be changed.
pub open spec fn update_stuck(d: DataModel, blocks: Seq<Vector3i>, l: int, p: Vector3i) -> bool {
    0 <= l < d.lods.len() && update_work(d, blocks, l).contains(p) && shared_marks::key_error(
        d.lods[l],
        l,
        p,
    ) is Some
}

/// What comes of preparing an update of the coarser levels. Where several
/// blocks cannot be changed, any of the errors may come out.
pub open spec fn lods_prepared(
    d: DataModel,
    blocks: Seq<Vector3i>,
    r: Result<Seq<LodChangeModel>, SharedVoxelDataMutationError>,
) -> bool {
    let n = d.lods.len() as int;
    match update_error(d, blocks, n - 1) {
        Some(e) => r == Err::<Seq<LodChangeModel>, _>(e),
        None => match r {
            Err(e) => exists|l: int, p: Vector3i| #[trigger]
                update_stuck(d, blocks, l, p) && shared_marks::key_error(d.lods[l], l, p) == Some(
                    e,
                ),
            Ok(changes) => {
                &&& forall|l: int, p: Vector3i| !#[trigger] update_stuck(d, blocks, l, p)
                &&& exists|made: Seq<Map<Vector3i, BufferModel>>| #[trigger]
                    made_below(d, blocks, made, n - 1) && changes == lod_changes(
                        d.lods,
                        all_drafts(d, blocks, made),
                        n,
                    )
            },
        },
    }
}

/// A list of prepared contents, by what it holds.
pub open spec fn lods_view(
    r: Result<Vec<PreparedLodBlockMutation>, SharedVoxelDataMutationError>,
) -> Result<Seq<LodChangeModel>, SharedVoxelDataMutationError> {
    match r {
        Ok(v) => Ok(changes_of(v@)),
        Err(e) => Err(e),
    }
}

/// Later levels do not matter for an earlier one.
proof fn lemma_drafts_prefix(
    d: DataModel,
    blocks: Seq<Vector3i>,
    made: Seq<Map<Vector3i, BufferModel>>,
    more: Map<Vector3i, BufferModel>,
    l: int,
)
    requires
        0 <= l < made.len(),
    ensures
        update_drafts(d, blocks, made.push(more), l) == update_drafts(d, blocks, made, l),
    decreases l,
{
    if l > 0 {
        lemma_drafts_prefix(d, blocks, made, more, l - 1);
        assert(made.push(more)[l] == made[l]);
    }
}

/// Turns the drafts of a level into prepared contents, in ZXY order.
fn prepare_level(live: &VoxelDataMap, level: DraftLevel, l: usize) -> (r: Result<
    Vec<PreparedLodBlockMutation>,
    SharedVoxelDataMutationError,
>)
    requires
        live.wf(),
        level.wf(),
        l < 24,
    ensures
        sorting::lists(sorting::listing(level.blocks().dom()), level.blocks().dom()),
        match r {
            Ok(v) => {
                &&& forall|p: Vector3i| #[trigger]
                    level.positions().contains(p) ==> shared_marks::key_error(
                        live@,
                        l as int,
                        p,
                    ) is None
                &&& changes_of(v@) == level_lod_changes(live@, l as int, level.blocks())
                &&& forall|k: int|
                    0 <= k < v@.len() ==> (#[trigger] v@[k]).lod_index == l && v@[k].block.wf()
                        && voxel_data_map::block_fits(v@[k].block@)
            },
            Err(e) => exists|p: Vector3i| #[trigger]
                level.positions().contains(p) && shared_marks::key_error(live@, l as int, p)
                    == Some(e),
        },
{
    let ghost m = live@;
    let ghost drafts = level.map@.blocks;
    let DraftLevel { mut map, work } = level;
    let ghost positions = work@;
    let sorted = sorting::sort_positions(work);
    let ghost cells = sorted@;
    let ghost change = |p: Vector3i| lod_change(m, l as int, p, drafts[p]);
    proof {
        assert forall|p: Vector3i| positions.to_set().contains(p) == drafts.dom().contains(p) by {
            assert(map@.has(p) <==> positions.contains(p));
        }
        assert(positions.to_set() =~= drafts.dom());
        sorting::lemma_listing(cells, drafts.dom());
        assert forall|k: int| 0 <= k < cells.len() implies positions.contains(
            #[trigger] cells[k],
        ) && map@.has(cells[k]) by {
            assert(cells.contains(cells[k]));
            assert(positions.to_set().contains(cells[k]));
        }
    }
    let mut changes: Vec<PreparedLodBlockMutation> = Vec::new();
    let mut i: usize = 0;
    assert(changes_of(changes@) =~= cells.take(0).map_values(change));
    while i < sorted.len()
        invariant
            i <= sorted@.len(),
            cells == sorted@,
            cells.no_duplicates(),
            l < 24,
            live.wf(),
            m == live@,
            map.wf(),
            drafts == level.blocks(),
            positions == level.positions(),
            sorting::lists(sorting::listing(drafts.dom()), drafts.dom()),
            change == (|p: Vector3i| lod_change(m, l as int, p, drafts[p])),
            forall|k: int| 0 <= k < cells.len() ==> positions.contains(#[trigger] cells[k]),
            forall|k: int|
                i <= k < cells.len() ==> map@.has(#[trigger] cells[k]) && map@.blocks[cells[k]]
                    == drafts[cells[k]],
            forall|k: int|
                0 <= k < i ==> shared_marks::key_error(m, l as int, #[trigger] cells[k]) is None,
            changes_of(changes@) == cells.take(i as int).map_values(change),
            forall|k: int|
                0 <= k < changes@.len() ==> (#[trigger] changes@[k]).lod_index == l
                    && changes@[k].block.wf() && voxel_data_map::block_fits(changes@[k].block@),
        decreases sorted@.len() - i,
    {
        let p = sorted[i];
        assert(p == cells[i as int]);
        match shared_marks::prepare_block(live, l, p, false) {
            Ok(c) => {
                match map.remove_block(p) {
                    Some(block) => {
                        let ghost before = changes@;
                        changes.push(
                            PreparedLodBlockMutation {
                                position: p,
                                lod_index: l,
                                expected_revision: c.expected_revision,
                                next_revision: c.next_revision,
                                bounds: c.bounds,
                                block,
                            },
                        );
                        proof {
                            assert(changes@[before.len() as int]@ == change(p));
                            assert(changes_of(changes@) =~= changes_of(before).push(change(p)));
                            assert(cells.take(i + 1).map_values(change) =~= cells.take(
                                i as int,
                            ).map_values(change).push(change(p)));
                        }
                    },
                    None => {
                        assert(false);
                    },
                }
            },
            Err(e) => {
                assert(positions.contains(p));
                return Err(e);
            },
        }
        i = i + 1;
    }
    proof {
        assert(cells.take(i as int) =~= cells);
        assert forall|p: Vector3i| #[trigger] positions.contains(p) implies shared_marks::key_error(
            m,
            l as int,
            p,
        ) is None by {
            assert(positions.to_set().contains(p));
            assert(cells.contains(p));
            let k = choose|k: int| 0 <= k < cells.len() && cells[k] == p;
            assert(shared_marks::key_error(m, l as int, cells[k]) is None);
        }
    }
    Ok(changes)
}

/// Contents prepared for earlier levels come first.
proof fn lemma_lod_changes_prefix(
    lods: Seq<MapModel>,
    drafts: Seq<Map<Vector3i, BlockModel>>,
    l: int,
    n: int,
)
    requires
        0 <= l <= n,
    ensures
        lod_changes(lods, drafts, l).len() <= lod_changes(lods, drafts, n).len(),
        forall|k: int|
            0 <= k < lod_changes(lods, drafts, l).len() ==> #[trigger] lod_changes(
                lods,
                drafts,
                n,
            )[k] == lod_changes(lods, drafts, l)[k],
    decreases n - l,
{
    if l < n {
        lemma_lod_changes_prefix(lods, drafts, l, n - 1);
        let shorter = lod_changes(lods, drafts, n - 1);
        assert forall|k: int| 0 <= k < lod_changes(lods, drafts, l).len() implies #[trigger]
            lod_changes(lods, drafts, n)[k] == lod_changes(lods, drafts, l)[k] by {
            assert(shorter[k] == lod_changes(lods, drafts, l)[k]);
        }
    }
}

/// Putting in the contents prepared for one level, one after the other, puts in
/// its drafts.
proof fn lemma_lod_level(
    lods: Seq<MapModel>,
    changes: Seq<LodChangeModel>,
    k: int,
    l: int,
    drafts: Map<Vector3i, BlockModel>,
    cells: Seq<Vector3i>,
    i: int,
)
    requires
        0 <= k,
        0 <= i <= cells.len(),
        k + cells.len() <= changes.len(),
        0 <= l < lods.len() <= usize::MAX,
        cells.no_duplicates(),
        lod_changes_applied(lods, changes, k).len() == lods.len(),
        lod_changes_applied(lods, changes, k)[l] == lods[l],
        forall|j: int|
            0 <= j < cells.len() ==> changes[k + j] == lod_change(
                lods[l],
                l,
                #[trigger] cells[j],
                drafts[cells[j]],
            ) && lods[l].revision(cells[j]) < u64::MAX,
    ensures
        lod_changes_applied(lods, changes, k + i) == lod_changes_applied(lods, changes, k).update(
            l,
            with_drafts(lods[l], drafts, cells.take(i)),
        ),
    decreases i,
{
    let m = lods[l];
    let start = lod_changes_applied(lods, changes, k);
    if i == 0 {
        assert(with_drafts(m, drafts, cells.take(0)).blocks =~= m.blocks);
        assert(with_drafts(m, drafts, cells.take(0)).revisions =~= m.revisions);
        assert(start.update(l, m) =~= start);
    } else {
        lemma_lod_level(lods, changes, k, l, drafts, cells, i - 1);
        let p = cells[i - 1];
        let c = changes[k + i - 1];
        assert(changes[k + (i - 1)] == lod_change(m, l, p, drafts[p]));
        collections::lemma_take_contains(cells, i - 1);
        let now = with_drafts(m, drafts, cells.take(i - 1));
        let after = with_drafts(m, drafts, cells.take(i));
        revision::lemma_advanced_step(m, cells, i - 1);
        let stepped = now.with_block(p, drafts[p]).with_revision(p, c.next_revision);
        assert(after.blocks =~= stepped.blocks);
        assert(after.revisions =~= m.advanced(cells.take(i)).revisions);
        assert(now.revisions =~= m.advanced(cells.take(i - 1)).revisions);
        assert(after.revisions =~= stepped.revisions);
        assert(after == stepped);
        assert(lod_changes_applied(lods, changes, k + i) =~= start.update(l, after));
    }
}

/// Putting in the contents prepared for the first `l` levels puts in their
/// drafts.
proof fn lemma_lods_applied(
    lods: Seq<MapModel>,
    drafts: Seq<Map<Vector3i, BlockModel>>,
    l: int,
    n: int,
)
    requires
        0 <= l <= n == lods.len() == drafts.len() < 24,
        forall|k: int|
            0 <= k < n ==> sorting::lists(
                sorting::listing((#[trigger] drafts[k]).dom()),
                drafts[k].dom(),
            ),
        forall|k: int, p: Vector3i|
            #![trigger drafts[k].contains_key(p)]
            0 <= k < n && drafts[k].contains_key(p) ==> lods[k].revision(p) < u64::MAX,
    ensures
        lod_changes_applied(
            lods,
            lod_changes(lods, drafts, n),
            lod_changes(lods, drafts, l).len() as int,
        ) == Seq::new(
            lods.len(),
            |k: int|
                if k < l {
                    with_drafts(lods[k], drafts[k], sorting::listing(drafts[k].dom()))
                } else {
                    lods[k]
                },
        ),
    decreases l,
{
    let changes = lod_changes(lods, drafts, n);
    let state = |j: int|
        Seq::new(
            lods.len(),
            |k: int|
                if k < j {
                    with_drafts(lods[k], drafts[k], sorting::listing(drafts[k].dom()))
                } else {
                    lods[k]
                },
        );
    if l == 0 {
        assert(state(0) =~= lods);
    } else {
        lemma_lods_applied(lods, drafts, l - 1, n);
        lemma_lod_changes_prefix(lods, drafts, l, n);
        let k = lod_changes(lods, drafts, l - 1).len() as int;
        let m = lods[l - 1];
        let draft = drafts[l - 1];
        let cells = sorting::listing(draft.dom());
        sorting::lemma_listing(cells, draft.dom());
        assert forall|j: int| 0 <= j < cells.len() implies changes[k + j] == lod_change(
            m,
            l - 1,
            #[trigger] cells[j],
            draft[cells[j]],
        ) && m.revision(cells[j]) < u64::MAX by {
            assert(cells.contains(cells[j]));
            assert(drafts[l - 1].contains_key(cells[j]));
            assert(lod_changes(lods, drafts, n)[k + j] == lod_changes(lods, drafts, l)[k + j]);
            assert(level_lod_changes(m, l - 1, draft)[j] == lod_change(
                m,
                l - 1,
                cells[j],
                draft[cells[j]],
            ));
        }
        lemma_lod_level(lods, changes, k, l - 1, draft, cells, cells.len() as int);
        assert(cells.take(cells.len() as int) =~= cells);
        assert(state(l - 1).update(l - 1, with_drafts(m, draft, cells)) =~= state(l));
    }
}

/// Each prepared content is for an existing level, from the present state.
proof fn lemma_lod_change(
    lods: Seq<MapModel>,
    drafts: Seq<Map<Vector3i, BlockModel>>,
    n: int,
    k: int,
)
    requires
        0 <= n <= lods.len() < 24,
        0 <= k < lod_changes(lods, drafts, n).len(),
    ensures
        ({
            let c = lod_changes(lods, drafts, n)[k];
            &&& c.lod_index < lods.len()
            &&& c.expected_revision == lods[c.lod_index as int].key_revision(c.position)
        }),
    decreases n,
{
    let shorter = lod_changes(lods, drafts, n - 1);
    if k < shorter.len() {
        lemma_lod_change(lods, drafts, n - 1, k);
    } else {
        let cells = sorting::listing(drafts[n - 1].dom());
        let p = cells[k - shorter.len()];
        assert(level_lod_changes(lods[n - 1], n - 1, drafts[n - 1])[k - shorter.len()]
            == lod_change(lods[n - 1], n - 1, p, drafts[n - 1][p]));
    }
}

/// What prepared contents hold follows appending.
proof fn lemma_append_changes(
    a: Seq<PreparedLodBlockMutation>,
    b: Seq<PreparedLodBlockMutation>,
)
    ensures
        changes_of(a + b) == changes_of(a) + changes_of(b),
{
    assert(changes_of(a + b) =~= changes_of(a) + changes_of(b));
}

/// The drafts of a finished list of levels.
closed spec fn levels_done(
    d: DataModel,
    blocks: Seq<Vector3i>,
    made: Seq<Map<Vector3i, BufferModel>>,
    levels: Seq<DraftLevel>,
) -> bool {
    forall|k: int|
        0 <= k < levels.len() ==> (#[trigger] levels[k]).wf() && levels[k].positions()
            == update_work(d, blocks, k) && levels[k].blocks() == update_drafts(
            d,
            blocks,
            made,
            k,
        )
}

impl SharedVoxelData {
    /// The drafts of all levels.
    fn draft_levels(&self, blocks: &[Vector3i]) -> (r: Result<
        Vec<DraftLevel>,
        SharedVoxelDataMutationError,
    >)
        requires
            self.wf(),
        ensures
            match r {
                Ok(v) => {
                    &&& update_error(self@.data, blocks@, self@.data.lods.len() - 1) is None
                    &&& v@.len() == self@.data.lods.len()
                    &&& exists|made: Seq<Map<Vector3i, BufferModel>>| #[trigger]
                        made_below(self@.data, blocks@, made, self@.data.lods.len() - 1)
                            && levels_done(self@.data, blocks@, made, v@)
                },
                Err(e) => update_error(self@.data, blocks@, self@.data.lods.len() - 1) == Some(e),
            },
    {
        let ghost d = self@.data;
        proof {
            self.lemma_wf();
        }
        let n: usize = self.lod_count();
        let mut levels: Vec<DraftLevel> = Vec::new();
        let ghost mut made: Seq<Map<Vector3i, BufferModel>> = seq![Map::empty()];
        levels.push(self.draft_finest(blocks));
        let mut l: usize = 1;
        assert(made_below(d, blocks@, made, 0));
        assert(levels_done(d, blocks@, made, levels@)) by {
            assert(levels@[0].blocks() == update_drafts(d, blocks@, made, 0));
        }
        while l < n
            invariant
                1 <= l <= n,
                n == d.lods.len(),
                d == self@.data,
                self.wf(),
                levels@.len() == l,
                made.len() == l,
                update_error(d, blocks@, l - 1) is None,
                made_below(d, blocks@, made, l - 1),
                levels_done(d, blocks@, made, levels@),
            decreases n - l,
        {
            proof {
                assert(levels@[l - 1].wf());
            }
            match self.draft_coarser(&levels[l - 1], l) {
                Ok(level) => {
                    proof {
                        let below = levels@[l - 1];
                        let more = choose|more: Map<Vector3i, BufferModel>| #[trigger]
                            drafted_from(
                                d,
                                l as int,
                                below.blocks(),
                                below.positions(),
                                more,
                                level.blocks(),
                            );
                        let longer = made.push(more);
                        assert(longer[l as int] == more);
                        lemma_drafts_prefix(d, blocks@, made, more, l - 1);
                        assert forall|k: int| 1 <= k <= l implies made_at(
                            d,
                            k,
                            #[trigger] update_work(d, blocks@, k),
                            longer[k],
                        ) by {
                            if k < l {
                                assert(longer[k] == made[k]);
                            }
                        }
                        let more_levels = levels@.push(level);
                        assert forall|k: int| 0 <= k < more_levels.len() implies (
                        #[trigger] more_levels[k]).wf() && more_levels[k].positions()
                            == update_work(d, blocks@, k) && more_levels[k].blocks()
                            == update_drafts(d, blocks@, longer, k) by {
                            if k < l {
                                assert(more_levels[k] == levels@[k]);
                                lemma_drafts_prefix(d, blocks@, made, more, k);
                            }
                        }
                        made = longer;
                    }
                    levels.push(level);
                },
                Err(e) => {
                    proof {
                        lemma_error_stays(d, blocks@, l as int, n - 1);
                    }
                    return Err(e);
                },
            }
            l = l + 1;
        }
        Ok(levels)
    }

    /// Prepares the new contents of all blocks that an update of the coarser
    /// levels changes, level by level in ZXY order.
    pub fn prepare_lod_updates(&self, blocks: &[Vector3i]) -> (r: Result<
        Vec<PreparedLodBlockMutation>,
        SharedVoxelDataMutationError,
    >)
        requires
            self.wf(),
        ensures
            lods_prepared(self@.data, blocks@, lods_view(r)),
            r matches Ok(v) ==> lod_changes_fit(self@, v@),
            forall|made: Seq<Map<Vector3i, BufferModel>>, k: int|
                #![trigger update_drafts(self@.data, blocks@, made, k)]
                r is Ok && 0 <= k < self@.data.lods.len() ==> sorting::lists(
                    sorting::listing(update_drafts(self@.data, blocks@, made, k).dom()),
                    update_drafts(self@.data, blocks@, made, k).dom(),
                ) && update_drafts(self@.data, blocks@, made, k).dom() == update_work(
                    self@.data,
                    blocks@,
                    k,
                ).to_set(),
    {
        let ghost d = self@.data;
        let ghost lods = d.lods;
        proof {
            self.lemma_wf();
        }
        let levels = match self.draft_levels(blocks) {
            Ok(levels) => levels,
            Err(e) => {
                return Err(e);
            },
        };
        let n: usize = self.lod_count();
        let ghost made = choose|made: Seq<Map<Vector3i, BufferModel>>| #[trigger]
            made_below(d, blocks@, made, n - 1) && levels_done(d, blocks@, made, levels@);
        let ghost drafts = all_drafts(d, blocks@, made);
        let ghost all = levels@;
        let mut rest = reversed(levels);
        let mut changes: Vec<PreparedLodBlockMutation> = Vec::new();
        let mut l: usize = 0;
        assert(changes_of(changes@) =~= Seq::empty());
        while l < n
            invariant
                l <= n,
                n == lods.len(),
                n < 24,
                self.wf(),
                d == self@.data,
                lods == d.lods,
                update_error(d, blocks@, n - 1) is None,
                levels_done(d, blocks@, made, all),
                all.len() == n,
                drafts == all_drafts(d, blocks@, made),
                rest@.len() == n - l,
                forall|k: int| 0 <= k < rest@.len() ==> #[trigger] rest@[k] == all[n - 1 - k],
                forall|k: int, p: Vector3i| k < l ==> !#[trigger] update_stuck(d, blocks@, k, p),
                changes_of(changes@) == lod_changes(lods, drafts, l as int),
                forall|k: int|
                    0 <= k < changes@.len() ==> (#[trigger] changes@[k]).lod_index < n
                        && changes@[k].block.wf() && voxel_data_map::block_fits(
                        changes@[k].block@,
                    ),
                forall|k: int|
                    0 <= k < l ==> sorting::lists(
                        sorting::listing((#[trigger] drafts[k]).dom()),
                        drafts[k].dom(),
                    ),
            decreases n - l,
        {
            proof {
                assert(rest@[rest@.len() - 1] == all[l as int]);
                assert(all[l as int].wf());
                assert(drafts[l as int] == all[l as int].blocks());
            }
            match rest.pop() {
                Some(level) => {
                    match prepare_level(self.lod(l), level, l) {
                        Ok(v) => {
                            let mut v = v;
                            let ghost more = v@;
                            let ghost before = changes@;
                            proof {
                                lemma_append_changes(before, more);
                                assert forall|k: int, p: Vector3i| k < l
                                    + 1 implies !#[trigger] update_stuck(d, blocks@, k, p) by {
                                    if k == l && update_work(d, blocks@, k).contains(p) {
                                        assert(level.positions().contains(p));
                                    }
                                }
                            }
                            changes.append(&mut v);
                            proof {
                                assert(changes@ =~= before + more);
                                assert forall|k: int| 0 <= k < changes@.len() implies (
                                #[trigger] changes@[k]).lod_index < n && changes@[k].block.wf()
                                    && voxel_data_map::block_fits(changes@[k].block@) by {
                                    if k < before.len() {
                                        assert(changes@[k] == before[k]);
                                    } else {
                                        assert(changes@[k] == more[k - before.len()]);
                                    }
                                }
                            }
                        },
                        Err(e) => {
                            proof {
                                let p = choose|p: Vector3i| #[trigger]
                                    level.positions().contains(p) && shared_marks::key_error(
                                        lods[l as int],
                                        l as int,
                                        p,
                                    ) == Some(e);
                                assert(update_stuck(d, blocks@, l as int, p));
                            }
                            return Err(e);
                        },
                    }
                },
                None => {},
            }
            l = l + 1;
        }
        proof {
            assert forall|k: int, p: Vector3i| !#[trigger] update_stuck(d, blocks@, k, p) by {
                if k < l {
                }
            }
            assert forall|other: Seq<Map<Vector3i, BufferModel>>, k: int|
                #![trigger update_drafts(d, blocks@, other, k)]
                0 <= k < lods.len() implies sorting::lists(
                sorting::listing(update_drafts(d, blocks@, other, k).dom()),
                update_drafts(d, blocks@, other, k).dom(),
            ) && update_drafts(d, blocks@, other, k).dom() == update_work(
                d,
                blocks@,
                k,
            ).to_set() by {
                lemma_draft_positions(d, blocks@, other, k);
                lemma_draft_positions(d, blocks@, made, k);
                assert(drafts[k] == update_drafts(d, blocks@, made, k));
            }
            assert(made_below(d, blocks@, made, n - 1));
        }
        Ok(changes)
    }
}

/// Drafts are made for the blocks that are worked on.
proof fn lemma_draft_positions(
    d: DataModel,
    blocks: Seq<Vector3i>,
    made: Seq<Map<Vector3i, BufferModel>>,
    l: int,
)
    ensures
        update_drafts(d, blocks, made, l).dom() == update_work(d, blocks, l).to_set(),
{
    let work = update_work(d, blocks, l);
    let drafts = update_drafts(d, blocks, made, l);
    if l > 0 {
        let below = update_work(d, blocks, l - 1);
        lemma_level_drafts(
            d.lods[l],
            update_drafts(d, blocks, made, l - 1),
            below,
            made[l],
            l == d.lods.len() - 1,
            below.len() as int,
        );
    }
    assert forall|p: Vector3i| drafts.dom().contains(p) == work.to_set().contains(p) by {
        assert(drafts.contains_key(p) <==> work.contains(p));
    }
    assert(drafts.dom() =~= work.to_set());
}

/// An error at one level is the error of the whole update.
proof fn lemma_error_stays(d: DataModel, blocks: Seq<Vector3i>, l: int, n: int)
    requires
        0 <= l <= n,
        update_error(d, blocks, l) is Some,
    ensures
        update_error(d, blocks, n) == update_error(d, blocks, l),
    decreases n - l,
{
    if l < n {
        lemma_error_stays(d, blocks, l, n - 1);
    }
}

/// Where a prepared content goes.
pub open spec fn change_location(c: LodChangeModel) -> BlockLocation {
    BlockLocation { position: c.position, lod_index: c.lod_index as u8 }
}

/// The updated blocks are those with prepared contents.
proof fn lemma_updated_locations(
    lods: Seq<MapModel>,
    drafts: Seq<Map<Vector3i, BlockModel>>,
    n: int,
)
    requires
        0 <= n <= lods.len() < 24,
    ensures
        updated_locations(drafts, n) == lod_changes(lods, drafts, n).map_values(
            |c: LodChangeModel| change_location(c),
        ),
    decreases n,
{
    let place = |c: LodChangeModel| change_location(c);
    if n > 0 {
        lemma_updated_locations(lods, drafts, n - 1);
        let l = n - 1;
        let cells = sorting::listing(drafts[l].dom());
        let more = level_lod_changes(lods[l], l, drafts[l]);
        assert(more.map_values(place) =~= cells.map_values(
            |p: Vector3i| BlockLocation { position: p, lod_index: (n - 1) as u8 },
        ));
        assert(lod_changes(lods, drafts, n).map_values(place) =~= lod_changes(
            lods,
            drafts,
            n - 1,
        ).map_values(place) + more.map_values(place));
    } else {
        assert(lod_changes(lods, drafts, n).map_values(place) =~= Seq::empty());
    }
}

/// The outcome of an update of the coarser levels, where `made` holds the new
/// voxels of each level.
pub open spec fn update_outcome(
    before: SharedModel,
    blocks: Seq<Vector3i>,
    made: Seq<Map<Vector3i, BufferModel>>,
    reserved: bool,
    r: Result<Seq<BlockLocation>, SharedVoxelDataMutationError>,
    after: SharedModel,
) -> bool {
    let d = before.data;
    let n = d.lods.len() as int;
    if blocks.len() == 0 {
        r == Ok::<Seq<BlockLocation>, SharedVoxelDataMutationError>(Seq::empty()) && after
            == before
    } else {
        match update_error(d, blocks, n - 1) {
            Some(e) => r == Err::<Seq<BlockLocation>, _>(e) && after == before,
            None => if exists|l: int, p: Vector3i| #[trigger] update_stuck(d, blocks, l, p) {
                after == before && (r matches Err(e) && exists|l: int, p: Vector3i| #[trigger]
                    update_stuck(d, blocks, l, p) && shared_marks::key_error(d.lods[l], l, p)
                        == Some(e))
            } else {
                let drafts = all_drafts(d, blocks, made);
                &&& made_below(d, blocks, made, n - 1)
                &&& shared_edits::change_outcome(
                    before,
                    if before.closed {
                        Some(SharedVoxelDataMutationError::MutationAdmissionClosed)
                    } else {
                        None
                    },
                    reserved || updated_locations(drafts, n).len() == 0,
                    before.with_lods(
                        Seq::new(
                            d.lods.len(),
                            |l: int|
                                with_drafts(
                                    d.lods[l],
                                    drafts[l],
                                    sorting::listing(drafts[l].dom()),
                                ),
                        ),
                    ),
                    updated_locations(drafts, n),
                    r,
                    after,
                )
            },
        }
    }
}

/// A list of locations, by its view.
pub open spec fn locations_view(
    r: Result<Vec<BlockLocation>, SharedVoxelDataMutationError>,
) -> Result<Seq<BlockLocation>, SharedVoxelDataMutationError> {
    match r {
        Ok(v) => Ok(v@),
        Err(e) => Err(e),
    }
}

impl SharedVoxelData {
    /// Carries edits of blocks of the finest level to all coarser levels. Each
    /// block is sampled into its octant of its parent, which is then modified;
    /// each block changes once, whatever number of children it has. Returns
    /// the blocks that were updated, level by level in ZXY order.
    pub fn update_lods_from_lod0_blocks_checked(
        &mut self,
        modified_lod0_blocks: &[Vector3i],
    ) -> (r: Result<Vec<BlockLocation>, SharedVoxelDataMutationError>)
        requires
            old(self).wf(),
        ensures
            final(self).wf(),
            exists|made: Seq<Map<Vector3i, BufferModel>>, reserved: bool| #[trigger]
                update_outcome(
                    old(self)@,
                    modified_lod0_blocks@,
                    made,
                    reserved,
                    locations_view(r),
                    final(self)@,
                ),
    {
        let ghost before = self@;
        let ghost d = before.data;
        let ghost lods = d.lods;
        let ghost blocks = modified_lod0_blocks@;
        let ghost n = lods.len() as int;
        let ghost any: Seq<Map<Vector3i, BufferModel>> = Seq::empty();
        proof {
            self.lemma_wf();
        }
        if modified_lod0_blocks.len() == 0 {
            let none: Vec<BlockLocation> = Vec::new();
            assert(none@ =~= Seq::empty());
            assert(update_outcome(before, blocks, any, true, Ok(none@), self@));
            return Ok(none);
        }
        let settings_revision: u64 = self.settings_revision();
        let changes = match self.prepare_lod_updates(modified_lod0_blocks) {
            Ok(changes) => changes,
            Err(e) => {
                proof {
                    if update_error(d, blocks, n - 1) is None {
                        let (l, p) = choose|l: int, p: Vector3i| #[trigger]
                            update_stuck(d, blocks, l, p) && shared_marks::key_error(
                                d.lods[l],
                                l,
                                p,
                            ) == Some(e);
                        assert(update_stuck(d, blocks, l, p));
                    }
                }
                assert(update_outcome(before, blocks, any, true, Err(e), self@));
                return Err(e);
            },
        };
        let ghost made = choose|made: Seq<Map<Vector3i, BufferModel>>| #[trigger]
            made_below(d, blocks, made, n - 1) && changes_of(changes@) == lod_changes(
                lods,
                all_drafts(d, blocks, made),
                n,
            );
        let ghost drafts = all_drafts(d, blocks, made);
        let ghost models = changes_of(changes@);
        let ghost place = |c: LodChangeModel| change_location(c);
        proof {
            lemma_updated_locations(lods, drafts, n);
            assert forall|k: int| 0 <= k < n implies sorting::lists(
                sorting::listing((#[trigger] drafts[k]).dom()),
                drafts[k].dom(),
            ) by {
                assert(drafts[k] == update_drafts(d, blocks, made, k));
            }
            assert forall|k: int, p: Vector3i|
                #![trigger drafts[k].contains_key(p)]
                0 <= k < n && drafts[k].contains_key(p) implies lods[k].revision(p) < u64::MAX by {
                assert(drafts[k] == update_drafts(d, blocks, made, k));
                assert(update_work(d, blocks, k).to_set().contains(p));
                assert(!update_stuck(d, blocks, k, p));
            }
            lemma_lods_applied(lods, drafts, n, n);
            let done = Seq::new(
                lods.len(),
                |l: int| with_drafts(lods[l], drafts[l], sorting::listing(drafts[l].dom())),
            );
            assert(lod_changes_applied(lods, models, models.len() as int) =~= done);
            let conflict = lod_conflict(before);
            collections::lemma_first_some_facts(models, conflict);
            assert forall|k: int| 0 <= k < models.len() implies conflict(
                #[trigger] models[k],
            ) is None by {
                lemma_lod_change(lods, drafts, n, k);
            }
        }
        let mut updated: Vec<BlockLocation> = Vec::new();
        let mut i: usize = 0;
        assert(updated@ =~= models.take(0).map_values(place));
        while i < changes.len()
            invariant
                i <= changes@.len(),
                models == changes_of(changes@),
                place == (|c: LodChangeModel| change_location(c)),
                updated@ == models.take(i as int).map_values(place),
            decreases changes@.len() - i,
        {
            let c = &changes[i];
            updated.push(
                BlockLocation { position: c.position, lod_index: c.lod_index as u8 },
            );
            proof {
                assert(models[i as int] == changes@[i as int]@);
                assert(updated@ =~= models.take(i + 1).map_values(place));
            }
            i = i + 1;
        }
        assert(models.take(i as int) =~= models);
        let short = self.reserve_lod_changes(&changes);
        let reserved = short.is_none();
        proof {
            shared_edits::lemma_refused_for_room(
                models,
                lod_level(),
                lod_conflict(before),
                short,
                lods.len() as int,
            );
        }
        match self.commit_lod_updates(settings_revision, changes, short) {
            Ok(_) => {
                assert(update_outcome(before, blocks, made, reserved, Ok(updated@), self@));
                Ok(updated)
            },
            Err(e) => {
                assert(update_outcome(before, blocks, made, reserved, Err(e), self@));
                Err(e)
            },
        }
    }

    /// Asks for room for prepared contents and their revisions. Returns the first
    /// level that has no room for its contents.
    pub fn reserve_lod_changes(&mut self, changes: &Vec<PreparedLodBlockMutation>) -> (short: Option<
        usize,
    >)
        requires
            old(self).wf(),
        ensures
            final(self).wf(),
            final(self)@ == old(self)@,
            short matches Some(l) ==> l < old(self)@.data.lods.len()
                && shared_edits::changes_level(changes_of(changes@), lod_level(), l as int),
    {
        let n: usize = self.lod_count();
        let mut l: usize = 0;
        while l < n
            invariant
                n == old(self)@.data.lods.len(),
                self.wf(),
                self@ == old(self)@,
            decreases n - l,
        {
            let (insertions, revisions) = self.count_lod_changes(changes, l);
            if !self.try_reserve(l, insertions, revisions) {
                return Some(l);
            }
            l = l + 1;
        }
        None
    }

    /// Number of contents for a level that have no block yet, and of all of them.
    fn count_lod_changes(&self, changes: &Vec<PreparedLodBlockMutation>, l: usize) -> (r: (
        usize,
        usize,
    ))
        requires
            self.wf(),
            l < self@.data.lods.len(),
        ensures
            r.0 == changes_of(changes@).filter(
                |c: LodChangeModel| c.lod_index == l && !self@.data.lods[l as int].has(c.position),
            ).len(),
            r.1 == changes_of(changes@).filter(|c: LodChangeModel| c.lod_index == l).len(),
            r.0 <= r.1,
            r.1 > 0 <==> shared_edits::changes_level(
                changes_of(changes@),
                lod_level(),
                l as int,
            ),
    {
        let ghost models = changes_of(changes@);
        let ghost level = lod_level();
        let ghost here = |c: LodChangeModel| c.lod_index == l;
        let ghost fresh = |c: LodChangeModel|
            c.lod_index == l && !self@.data.lods[l as int].has(c.position);
        let mut insertions: usize = 0;
        let mut all: usize = 0;
        let mut i: usize = 0;
        proof {
            collections::lemma_filter_none(models, here);
            collections::lemma_filter_none(models, fresh);
        }
        while i < changes.len()
            invariant
                i <= changes@.len(),
                insertions <= all <= i,
                models == changes_of(changes@),
                self.wf(),
                l < self@.data.lods.len(),
                level == lod_level(),
                here == (|c: LodChangeModel| c.lod_index == l),
                fresh == (|c: LodChangeModel|
                    c.lod_index == l && !self@.data.lods[l as int].has(c.position)),
                all == models.take(i as int).filter(here).len(),
                insertions == models.take(i as int).filter(fresh).len(),
                all > 0 <==> exists|k: int| 0 <= k < i && level(#[trigger] models[k]) == l,
            decreases changes@.len() - i,
        {
            proof {
                collections::lemma_filter_take(models, here, i as int);
                collections::lemma_filter_take(models, fresh, i as int);
                assert(models[i as int] == changes@[i as int]@);
                assert(level(models[i as int]) == changes@[i as int].lod_index);
            }
            if changes[i].lod_index == l {
                all = all + 1;
                if !self.lod(l).has_block(changes[i].position) {
                    insertions = insertions + 1;
                }
            }
            i = i + 1;
        }
        assert(models.take(i as int) =~= models);
        (insertions, all)
    }
}

} // verus!
