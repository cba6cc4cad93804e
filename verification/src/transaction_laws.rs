//! What transactions, previews, admission and regions of shared data promise.

use crate::boxes::Box3i;
use crate::boxes::BoxBounds3i;
use crate::buffer_model::BufferModel;
use crate::collections;
use crate::grid::Cell;
use crate::math::Vector3i;
use crate::mutation_error::{
    SharedVoxelDataMutationError, SharedVoxelDataTransactionReservation,
};
use crate::prepared_transaction;
use crate::prepared_transaction::{
    PreparedSharedVoxelDataTransaction, RemovedModel, TransactionModel,
};
use crate::shared_data;
use crate::shared_data::SharedModel;
use crate::shared_edits;
use crate::shared_lods;
use crate::shared_marks;
use crate::shared_views;
use crate::spatial_lock;
use crate::spatial_lock::LockedRegion;
use crate::transaction;
use crate::transaction::{OperationModel, SharedVoxelDataTransactionOperation};
use crate::transaction_preview;
use crate::transaction_preview::SharedVoxelDataTransactionBlockSnapshot;
use crate::voxel_data::{BlockLocation, DataModel, SaveModel};
use crate::voxel_data_block::BlockModel;
use vstd::prelude::*;

verus! {

/// An operation suits the data: its level exists; it puts a block in only where
/// there is none, and does anything else only where there is one; a block that it
/// brings is of its level and has the extent of a block; it changes something; and
/// the revision of its key can advance.
pub open spec fn suits(d: DataModel, op: OperationModel) -> bool {
    let place = op.place();
    let l = place.lod_index as int;
    let p = place.position;
    let m = d.lods[l];
    &&& 0 <= l < d.lods.len()
    &&& op is Insert <==> !m.blocks.contains_key(p)
    &&& op matches OperationModel::Insert { block, .. } ==> block.lod_index == l && (
    block.voxels matches Some(v) ==> v.size == (Cell { x: 16, y: 16, z: 16 }))
    &&& op matches OperationModel::Replace { block, .. } ==> block.lod_index == l && (
    block.voxels matches Some(v) ==> v.size == (Cell { x: 16, y: 16, z: 16 }))
    &&& op matches OperationModel::SetViewersExact { final_viewers, .. } ==> m.blocks[p].viewers
        != final_viewers
    &&& op is SetViewersExactAndClearModified || op is ClearModified ==> m.blocks[p].modified
    &&& m.revision(p) < u64::MAX
}

/// A prepared transaction has the operations that were given, each once, by level,
/// then by x, y and z; no two are on the same key. Each suits the data, and expects
/// of its key what the data shows.
pub proof fn prepared_operations_suit_the_data(
    s: SharedModel,
    operations: Seq<SharedVoxelDataTransactionOperation>,
    settings_revision: u64,
    failed: Option<SharedVoxelDataTransactionReservation>,
    t: PreparedSharedVoxelDataTransaction,
    i: int,
    j: int,
)
    requires
        s.data.wf(),
        prepared_transaction::prepare_outcome(s, operations, settings_revision, failed, Ok(t)),
        0 <= i < t@.operations.len(),
    ensures
        t.operations().to_multiset() == operations.to_multiset(),
        t@.operations == prepared_transaction::operations_of(t.operations()),
        suits(s.data, t@.operations[i]),
        i < j < t@.operations.len() ==> {
            let a = t@.operations[i].place();
            let b = t@.operations[j].place();
            a.lod_index < b.lod_index || a.lod_index == b.lod_index && (a.position.x < b.position.x
                || a.position.x == b.position.x && (a.position.y < b.position.y || a.position.y
                == b.position.y && a.position.z < b.position.z))
        },
        ({
            let e = t@.expectations[i];
            let place = t@.operations[i].place();
            let m = s.data.lods[place.lod_index as int];
            &&& e.location == place
            &&& e.expected_revision == m.key_revision(place.position)
            &&& e.next_revision == m.revision(place.position) + 1
        }),
        t@.settings_revision == settings_revision,
        t@.lineage == s.lineage,
        !t@.committed,
        t@.permit is None,
{
    t.lemma_wf();
    let ops = prepared_transaction::operations_of(t.operations());
    let errors = transaction::operation_errors(s.data);
    assert(t@.operations == ops);
    collections::lemma_first_some_facts(ops, errors);
    assert(errors(ops[i]) is None);
    if i < j < ops.len() {
        transaction::lemma_location_key(ops[i].place(), ops[j].place());
        assert(transaction::location_key(t@.operations[i].place()) < transaction::location_key(
            t@.operations[j].place(),
        ));
    }
}

/// Two operations on one key are never prepared together.
pub proof fn operations_on_one_key_are_refused(
    s: SharedModel,
    operations: Seq<SharedVoxelDataTransactionOperation>,
    settings_revision: u64,
    failed: Option<SharedVoxelDataTransactionReservation>,
    t: PreparedSharedVoxelDataTransaction,
    i: int,
    j: int,
)
    requires
        s.data.wf(),
        prepared_transaction::prepare_outcome(s, operations, settings_revision, failed, Ok(t)),
        0 <= i < j < t@.operations.len(),
    ensures
        t@.operations[i].place() != t@.operations[j].place(),
{
    prepared_operations_suit_the_data(s, operations, settings_revision, failed, t, i, j);
}

/// A transaction is not committed where the block of a key that it changes is no
/// longer there, or has other viewers, another mark or other voxels to show for,
/// than when it was prepared; nor where the settings have changed.
pub proof fn changed_blocks_stop_a_commit(
    s: SharedModel,
    ops: Seq<OperationModel>,
    settings_revision: u64,
    before: SharedModel,
    failed: Option<SharedVoxelDataTransactionReservation>,
    removed: Seq<RemovedModel>,
    after: SharedModel,
    spent: TransactionModel,
    k: int,
)
    requires
        prepared_transaction::commit_outcome(
            before,
            prepared_transaction::freshly_prepared(s, ops, settings_revision),
            failed,
            Ok(removed),
            after,
            spent,
        ),
        0 <= k < ops.len(),
    ensures
        before.settings_revision == settings_revision,
        ({
            let place = ops[k].place();
            let l = place.lod_index as int;
            let p = place.position;
            let then = s.data.lods[l];
            let now = before.data.lods[l];
            &&& now.revision(p) == then.revision(p)
            &&& now.blocks.contains_key(p) == then.blocks.contains_key(p)
            &&& ops[k] is Insert ==> !now.blocks.contains_key(p)
            &&& !(ops[k] is Insert) ==> {
                &&& now.blocks.contains_key(p)
                &&& now.blocks[p].viewers == then.blocks[p].viewers
                &&& now.blocks[p].modified == then.blocks[p].modified
                &&& now.blocks[p].edited == then.blocks[p].edited
                &&& now.blocks[p].voxels is Some == then.blocks[p].voxels is Some
            }
        }),
{
    let t = prepared_transaction::freshly_prepared(s, ops, settings_revision);
    let conflicts = prepared_transaction::expectation_conflicts(before.data, true);
    collections::lemma_first_some_facts(t.expectations, conflicts);
    assert(t.expectations[k] == transaction::expectation_of(s.data, ops[k]));
    assert(conflicts(t.expectations[k]) is None);
}

/// A transaction that has been committed changed data that admits changes, or had
/// the permit of this very data; it was not committed before.
pub proof fn commits_are_admitted(
    before: SharedModel,
    t: TransactionModel,
    failed: Option<SharedVoxelDataTransactionReservation>,
    removed: Seq<RemovedModel>,
    after: SharedModel,
    spent: TransactionModel,
)
    requires
        prepared_transaction::commit_outcome(before, t, failed, Ok(removed), after, spent),
    ensures
        !t.committed,
        spent.committed,
        before.settings_revision == t.settings_revision,
        before.closed && t.operations.len() > 0 ==> t.permit == Some(before.lineage),
        after.closed == before.closed,
        after.lineage == before.lineage,
        after.settings_revision == before.settings_revision,
        after.regions == before.regions,
        after.data == (DataModel { lods: after.data.lods, ..before.data }),
{
}

/// Data that no longer admits changes takes neither voxels nor blocks.
pub proof fn closed_data_takes_no_voxels(
    before: SharedModel,
    value: u64,
    pos: Vector3i,
    channel_index: usize,
    made: Option<BufferModel>,
    block: BlockModel,
    reserved: bool,
    r: Result<bool, SharedVoxelDataMutationError>,
    after: SharedModel,
)
    requires
        before.closed,
        shared_edits::edit_outcome(before, value, pos, channel_index, made, reserved, r, after)
            || shared_edits::set_outcome(before, value, pos, channel_index, reserved, r, after)
            || shared_edits::insert_outcome(before, pos, block, reserved, r, after),
    ensures
        after == before,
{
}

/// Data that no longer admits changes is neither viewed nor released.
pub proof fn closed_data_keeps_its_viewers(
    before: SharedModel,
    blocks_box: Box3i,
    l: int,
    listed: bool,
    saving: bool,
    scratch: bool,
    live: bool,
    r: Result<(), SharedVoxelDataMutationError>,
    after: SharedModel,
)
    requires
        before.closed,
        shared_views::view_outcome(before, blocks_box, l, listed, scratch, live, r, after)
            || shared_views::unview_outcome(
            before,
            blocks_box,
            l,
            listed,
            saving,
            scratch,
            live,
            r,
            after,
        ),
    ensures
        after == before,
{
}

/// Data that no longer admits changes is not marked, not taken for saving, and
/// keeps its generator.
pub proof fn closed_data_keeps_its_marks(
    before: SharedModel,
    voxel_box: Box3i,
    require_lod_updates: bool,
    reserved: bool,
    marked: Result<Seq<Vector3i>, SharedVoxelDataMutationError>,
    saves: Result<Seq<SaveModel>, SharedVoxelDataMutationError>,
    generator: Option<crate::generator::SharedVoxelGenerator>,
    r: Result<(), SharedVoxelDataMutationError>,
    after: SharedModel,
)
    requires
        before.closed,
        shared_marks::mark_outcome(
            before,
            voxel_box,
            require_lod_updates,
            reserved,
            marked,
            after,
        ) || shared_marks::consume_outcome(before, reserved, saves, after)
            || shared_data::generator_outcome(before, generator, reserved, r, after),
    ensures
        after == before,
{
}

/// Data that no longer admits changes keeps its coarser levels.
pub proof fn closed_data_keeps_its_levels(
    before: SharedModel,
    blocks: Seq<Vector3i>,
    made: Seq<Map<Vector3i, BufferModel>>,
    reserved: bool,
    r: Result<Seq<BlockLocation>, SharedVoxelDataMutationError>,
    after: SharedModel,
)
    requires
        before.closed,
        shared_lods::update_outcome(before, blocks, made, reserved, r, after),
    ensures
        after == before,
{
}

/// Another generator comes with another settings revision, so that whatever was
/// prepared under the old one is refused; nothing else changes.
pub proof fn another_generator_advances_the_settings(
    before: SharedModel,
    generator: Option<crate::generator::SharedVoxelGenerator>,
    unchanged: bool,
    after: SharedModel,
)
    requires
        shared_data::generator_outcome(before, generator, unchanged, Ok(()), after),
    ensures
        unchanged ==> after == before,
        !unchanged ==> after.data.generator == generator && after.settings_revision
            == before.settings_revision + 1,
        after.data.lods == before.data.lods,
        after.data.bounds == before.data.bounds,
        after.data.format == before.data.format,
        after.lineage == before.lineage,
        after.closed == before.closed,
{
}

/// A transaction prepared from a preview changes only keys that were looked at,
/// each at most once; and every key that was looked at is still as it was seen:
/// the same revision, the same block or none, the same viewers and marks. Keys that
/// were only looked at are watched until the commit.
pub proof fn previews_hold_until_the_commit(
    s: SharedModel,
    operations: Seq<SharedVoxelDataTransactionOperation>,
    snapshots: Seq<SharedVoxelDataTransactionBlockSnapshot>,
    sorted: Seq<SharedVoxelDataTransactionBlockSnapshot>,
    settings_revision: u64,
    failed: Option<SharedVoxelDataTransactionReservation>,
    t: PreparedSharedVoxelDataTransaction,
    i: int,
    k: int,
)
    requires
        transaction_preview::preview_outcome(
            s,
            operations,
            snapshots,
            sorted,
            settings_revision,
            failed,
            Ok(t),
        ),
        0 <= k < sorted.len(),
    ensures
        sorted.to_multiset() == snapshots.to_multiset(),
        t.operations().to_multiset() == operations.to_multiset(),
        0 <= i < t@.operations.len() ==> exists|j: int|
            0 <= j < sorted.len() && (#[trigger] sorted[j])@.location == t@.operations[i].place(),
        0 < k ==> sorted[k]@.location != sorted[k - 1]@.location,
        ({
            let place = sorted[k]@.location;
            let m = s.data.lods[place.lod_index as int];
            let p = place.position;
            &&& sorted[k]@.revision == m.key_revision(p)
            &&& sorted[k]@.state is Some == m.blocks.contains_key(p)
            &&& sorted[k]@.state matches Some(b) ==> {
                &&& b.viewers == m.blocks[p].viewers
                &&& b.modified == m.blocks[p].modified
                &&& b.edited == m.blocks[p].edited
                &&& b.has_voxels == m.blocks[p].voxels is Some
            }
            &&& (forall|j: int|
                0 <= j < t@.operations.len() ==> (#[trigger] t@.operations[j]).place() != place)
                ==> exists|j: int|
                0 <= j < t@.observations.len() && (#[trigger] t@.observations[j]).location == place
                    && t@.observations[j].expected_revision == m.key_revision(p)
        }),
{
    let ops = prepared_transaction::operations_of(t.operations());
    let errors = transaction_preview::snapshot_errors(s.data, ops);
    assert(t@.operations == ops);
    collections::lemma_first_some_facts(sorted, errors);
    assert(errors(sorted[k]) is None);
    let place = sorted[k]@.location;
    let m = s.data.lods[place.lod_index as int];
    assert(transaction_preview::snapshot_conflict(s.data, sorted[k]@) is None);
    assert(!transaction_preview::set_mismatch(ops, sorted));
    if 0 <= i < ops.len() {
        assert(transaction_preview::looked_at(sorted, ops[i].place()));
    }
    if 0 < k && sorted[k]@.location == sorted[k - 1]@.location {
        assert(transaction_preview::snapshots_repeat(sorted, sorted.len() as int));
    }
    let bare = |x: SharedVoxelDataTransactionBlockSnapshot|
        !transaction_preview::operated(ops, x@.location);
    if bare(sorted[k]) {
        let list = sorted.filter(bare);
        collections::lemma_filter_facts(sorted, bare);
        assert(sorted.contains(sorted[k]));
        assert(list.contains(sorted[k]));
        let j = choose|j: int| 0 <= j < list.len() && list[j] == sorted[k];
        assert(t@.observations == transaction_preview::observed_keys(s.data, ops, sorted));
        assert(t@.observations[j] == transaction::observation_of(s.data, place));
    }
}

/// A commit finds every key that its transaction watches with the revision and
/// the state that the preview saw.
pub proof fn watched_keys_stop_a_commit(
    before: SharedModel,
    t: TransactionModel,
    failed: Option<SharedVoxelDataTransactionReservation>,
    removed: Seq<RemovedModel>,
    after: SharedModel,
    spent: TransactionModel,
    k: int,
)
    requires
        prepared_transaction::commit_outcome(before, t, failed, Ok(removed), after, spent),
        0 <= k < t.observations.len(),
    ensures
        ({
            let e = t.observations[k];
            let m = before.data.lods[e.location.lod_index as int];
            let p = e.location.position;
            &&& m.key_revision(p) == e.expected_revision
            &&& e.expected_block_state is Some == m.blocks.contains_key(p)
            &&& e.expected_block_state matches Some(b) ==> {
                &&& b.viewers == m.blocks[p].viewers
                &&& b.modified == m.blocks[p].modified
                &&& b.edited == m.blocks[p].edited
                &&& b.has_voxels == m.blocks[p].voxels is Some
            }
        }),
{
    let conflicts = prepared_transaction::expectation_conflicts(before.data, false);
    collections::lemma_first_some_facts(t.observations, conflicts);
    assert(conflicts(t.observations[k]) is None);
}

/// Two boxes, given by their corners, have a cell in common.
pub open spec fn share_a_cell(a: BoxBounds3i, b: BoxBounds3i, c: Cell) -> bool {
    c.within(a.min_pos@, a.max_pos@) && c.within(b.min_pos@, b.max_pos@)
}

/// A region is had exactly if it is free: no region that is written shares a voxel
/// with it, and if it is to be written, no region at all. A region that is had
/// covers the box that was asked for.
pub proof fn regions_are_had_where_they_are_free(
    before: SharedModel,
    l: int,
    voxel_box: Box3i,
    write: bool,
    r: Option<LockedRegion>,
    after: SharedModel,
    k: int,
    c: Cell,
)
    requires
        shared_data::region_outcome(before, l, voxel_box, write, r, after),
        voxel_box.end().fits(),
        0 <= l < before.regions.len(),
        0 <= k < before.regions[l].len(),
    ensures
        r matches Some(region) ==> {
            &&& region.write == write
            &&& region.bounds.min_pos == voxel_box.position
            &&& region.bounds.max_pos@ == voxel_box.end()
            &&& after.regions[l] == before.regions[l].push(region)
            &&& write || before.regions[l][k].write ==> !share_a_cell(
                before.regions[l][k].bounds,
                region.bounds,
                c,
            )
        },
        r is None ==> after == before && exists|i: int|
            0 <= i < before.regions[l].len() && (write || (#[trigger] before.regions[l][i]).write)
                && before.regions[l][i].bounds.min_pos@.lt(voxel_box.end())
                && voxel_box.position@.lt(before.regions[l][i].bounds.max_pos@),
        after.data == before.data,
{
    let regions = before.regions[l];
    let bounds = BoxBounds3i {
        min_pos: voxel_box.position,
        max_pos: Vector3i::from_cell(voxel_box.end()),
    };
    assert(bounds.max_pos@ == voxel_box.end());
    if r is Some && (write || regions[k].write) {
        assert(!regions[k].bounds.meets(bounds));
    }
    if r is None {
        if write {
            assert(!spatial_lock::can_write(regions, bounds));
            let i = choose|i: int|
                0 <= i < regions.len() && (#[trigger] regions[i]).bounds.meets(bounds);
            assert(regions[i].bounds.meets(bounds));
        } else {
            assert(!spatial_lock::can_read(regions, bounds));
            let i = choose|i: int|
                0 <= i < regions.len() && (#[trigger] regions[i]).write
                    && regions[i].bounds.meets(bounds);
            assert(regions[i].bounds.meets(bounds));
        }
    }
}

} // verus!
