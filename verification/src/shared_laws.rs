//! What holds of the operations on shared voxel data together.

use crate::boxes::Box3i;
use crate::buffer_laws;
use crate::buffer_model::BufferModel;
use crate::channel::MAX_CHANNELS;
use crate::collections;
use crate::data_laws;
use crate::grid::Cell;
use crate::math::Vector3i;
use crate::mutation_error::{
    SharedVoxelDataMutationError, SharedVoxelDataTransactionReservation,
};
use crate::position_map;
use crate::prepared_transaction;
use crate::prepared_transaction::{RemovedModel, TransactionModel};
use crate::resident_copies;
use crate::shared_data::SharedModel;
use crate::shared_edits;
use crate::shared_lods;
use crate::shared_marks;
use crate::shared_views;
use crate::sorting;
use crate::transaction;
use crate::transaction::{OperationModel, PreparedSharedVoxelDataExpectation};
use crate::transaction_preview;
use crate::transaction_preview::{PreviewLineage, SharedVoxelDataTransactionBlockSnapshot};
use crate::voxel_data::{BlockLocation, DataModel, SaveModel, MAX_LOD};
use crate::voxel_data_block::BlockModel;
use crate::voxel_data_lods;
use crate::voxel_data_map;
use crate::voxel_data_map::{MapModel, BLOCK_SIZE};
use crate::voxel_edit;
use vstd::prelude::*;

verus! {

/// An edit that fails changes nothing.
pub proof fn failed_edits_change_nothing(
    before: SharedModel,
    value: u64,
    pos: Vector3i,
    channel_index: usize,
    made: Option<BufferModel>,
    reserved: bool,
    r: Result<bool, SharedVoxelDataMutationError>,
    after: SharedModel,
)
    requires
        shared_edits::edit_outcome(
            before,
            value,
            pos,
            channel_index,
            made,
            reserved,
            r,
            after,
        ) || shared_edits::set_outcome(before, value, pos, channel_index, reserved, r, after),
        r != Ok::<bool, SharedVoxelDataMutationError>(true),
    ensures
        after == before,
{
}

/// A block that is not put in changes nothing.
pub proof fn failed_insertions_change_nothing(
    before: SharedModel,
    p: Vector3i,
    block: BlockModel,
    reserved: bool,
    r: Result<bool, SharedVoxelDataMutationError>,
    after: SharedModel,
)
    requires
        shared_edits::insert_outcome(before, p, block, reserved, r, after),
        r != Ok::<bool, SharedVoxelDataMutationError>(true),
    ensures
        after == before,
{
}

/// The number of blocks of the first `n` levels, once a block has been put in at
/// level `l`.
proof fn lemma_one_block_more(d: DataModel, l: int, p: Vector3i, m: MapModel, n: int)
    requires
        0 <= l < d.lods.len(),
        0 <= n <= d.lods.len(),
        !d.lods[l].has(p),
        m.blocks.dom() == d.lods[l].blocks.dom().insert(p),
    ensures
        d.with_lod(l, m).blocks_below(n) == d.blocks_below(n) + if l < n {
            1nat
        } else {
            0nat
        },
    decreases n,
{
    if n > 0 {
        lemma_one_block_more(d, l, p, m, n - 1);
        position_map::lemma_positions_finite(d.lods[l].blocks.dom());
    }
}

/// Putting in a block raises the number of blocks of all levels by one. Where
/// none is put in, because one is there or for an error, the number stays.
pub proof fn insertions_are_counted(
    before: SharedModel,
    p: Vector3i,
    block: BlockModel,
    reserved: bool,
    r: Result<bool, SharedVoxelDataMutationError>,
    after: SharedModel,
)
    requires
        block.lod_index < before.data.lods.len(),
        shared_edits::insert_outcome(before, p, block, reserved, r, after),
    ensures
        ({
            let n = before.data.lods.len() as int;
            &&& after.data.lods.len() == n
            &&& after.data.blocks_below(n) == before.data.blocks_below(n) + if r == Ok::<
                bool,
                SharedVoxelDataMutationError,
            >(true) {
                1nat
            } else {
                0nat
            }
        }),
{
    if r == Ok::<bool, SharedVoxelDataMutationError>(true) {
        let l = block.lod_index as int;
        let m = before.data.lods[l];
        let more = m.with_block(p, block).with_revision(p, (m.revision(p) + 1) as u64);
        assert(more.blocks.dom() =~= m.blocks.dom().insert(p));
        lemma_one_block_more(before.data, l, p, more, before.data.lods.len() as int);
    }
}

/// Viewing or releasing an area changes all of it or nothing.
pub proof fn failed_views_change_nothing(
    before: SharedModel,
    blocks_box: Box3i,
    l: int,
    listed: bool,
    saving: bool,
    scratch: bool,
    live: bool,
    r: Result<(), SharedVoxelDataMutationError>,
    after: SharedModel,
)
    requires
        shared_views::view_outcome(before, blocks_box, l, listed, scratch, live, r, after)
            || shared_views::unview_outcome(
            before,
            blocks_box,
            l,
            listed,
            saving,
            scratch,
            live,
            r,
            after,
        ),
        r is Err,
    ensures
        after == before,
{
}

/// Marking an area changes all of it or nothing.
pub proof fn failed_marks_change_nothing(
    before: SharedModel,
    voxel_box: Box3i,
    require_lod_updates: bool,
    reserved: bool,
    r: Result<Seq<Vector3i>, SharedVoxelDataMutationError>,
    after: SharedModel,
)
    requires
        shared_marks::mark_outcome(before, voxel_box, require_lod_updates, reserved, r, after),
        r is Err,
    ensures
        after == before,
{
}

/// Taking modifications for saving takes all or none.
pub proof fn failed_saves_change_nothing(
    before: SharedModel,
    reserved: bool,
    r: Result<Seq<SaveModel>, SharedVoxelDataMutationError>,
    after: SharedModel,
)
    requires
        shared_marks::consume_outcome(before, reserved, r, after),
        r is Err,
    ensures
        after == before,
{
}

/// Updating the coarser levels updates all of them or none.
pub proof fn failed_updates_change_nothing(
    before: SharedModel,
    blocks: Seq<Vector3i>,
    made: Seq<Map<Vector3i, BufferModel>>,
    reserved: bool,
    r: Result<Seq<BlockLocation>, SharedVoxelDataMutationError>,
    after: SharedModel,
)
    requires
        shared_lods::update_outcome(before, blocks, made, reserved, r, after),
        r is Err,
    ensures
        after == before,
{
}

/// A transaction that cannot be committed changes nothing and stays as it was.
/// One that has been committed cannot be committed again.
pub proof fn transactions_are_committed_whole_and_once(
    before: SharedModel,
    t: TransactionModel,
    failed: Option<SharedVoxelDataTransactionReservation>,
    r: Result<Seq<RemovedModel>, SharedVoxelDataMutationError>,
    after: SharedModel,
    spent: TransactionModel,
)
    requires
        prepared_transaction::commit_outcome(before, t, failed, r, after, spent),
    ensures
        r is Err ==> after == before && spent == t,
        r is Ok ==> forall|s: SharedModel|
            prepared_transaction::commit_refusal(s, spent, None) == Some(
                SharedVoxelDataMutationError::PreparedTransactionAlreadyCommitted,
            ),
{
    if r is Ok {
        assert forall|s: SharedModel|
            prepared_transaction::commit_refusal(s, spent, None) == Some(
                SharedVoxelDataMutationError::PreparedTransactionAlreadyCommitted,
            ) by {
            assert(prepared_transaction::commit_denial(s, spent) is Some);
        }
    }
}

/// After `n` operations, the key of the `k`-th one has the revision that was
/// prepared for it.
pub(crate) proof fn lemma_revision_applied(
    lods: Seq<MapModel>,
    ops: Seq<OperationModel>,
    expectations: Seq<PreparedSharedVoxelDataExpectation>,
    k: int,
    n: int,
)
    requires
        0 <= k < n <= ops.len(),
        forall|i: int| 0 <= i < ops.len() ==> (#[trigger] ops[i]).place().lod_index < lods.len(),
        forall|i: int, j: int|
            0 <= i < j < ops.len() ==> (#[trigger] ops[i]).place() != (#[trigger] ops[j]).place(),
    ensures
        ({
            let after = prepared_transaction::operations_applied(lods, ops, expectations, n);
            let place = ops[k].place();
            &&& after.len() == lods.len()
            &&& after[place.lod_index as int].revision(place.position)
                == expectations[k].next_revision
            &&& ops[k].payload() is Some ==> after[place.lod_index as int].blocks.get(
                place.position,
            ) == prepared_transaction::operation_applied(
                lods[place.lod_index as int],
                ops[k],
                expectations[k].next_revision,
            ).blocks.get(place.position)
        }),
    decreases n,
{
    let place = ops[k].place();
    let l = place.lod_index as int;
    let before = prepared_transaction::operations_applied(lods, ops, expectations, n - 1);
    if k < n - 1 {
        lemma_revision_applied(lods, ops, expectations, k, n - 1);
        assert(ops[n - 1].place() != place);
    } else {
        assert forall|i: int| 0 <= i < k implies (#[trigger] ops[i]).place() != place by {}
        prepared_transaction::operations_leave_other_keys(lods, ops, expectations, k, place);
    }
}

/// A committed transaction advances the revision of every key that it changes
/// exactly once, and leaves all other keys as they are.
pub proof fn commits_advance_their_keys_once(
    before: SharedModel,
    t: TransactionModel,
    failed: Option<SharedVoxelDataTransactionReservation>,
    removed: Seq<RemovedModel>,
    after: SharedModel,
    spent: TransactionModel,
    place: BlockLocation,
)
    requires
        t.wf(),
        prepared_transaction::prepared_for(t, before),
        prepared_transaction::commit_outcome(before, t, failed, Ok(removed), after, spent),
        place.lod_index < before.data.lods.len(),
    ensures
        ({
            let l = place.lod_index as int;
            let p = place.position;
            let touched = transaction_preview::operated(t.operations, place);
            &&& touched ==> after.data.lods[l].revision(p) == before.data.lods[l].revision(p) + 1
            &&& !touched ==> after.data.lods[l].revision(p) == before.data.lods[l].revision(p)
                && after.data.lods[l].blocks.get(p) == before.data.lods[l].blocks.get(p)
        }),
{
    let lods = before.data.lods;
    let ops = t.operations;
    let n = ops.len() as int;
    assert forall|i: int| 0 <= i < ops.len() implies (#[trigger] ops[i]).place().lod_index
        < lods.len() by {
        assert(prepared_transaction::expects(ops[i], t.expectations[i], t.lod_count));
    }
    if transaction_preview::operated(ops, place) {
        let k = choose|k: int| 0 <= k < n && (#[trigger] ops[k]).place() == place;
        lemma_revision_applied(lods, ops, t.expectations, k, n);
        let conflicts = prepared_transaction::expectation_conflicts(before.data, true);
        collections::lemma_first_some_facts(t.expectations, conflicts);
        assert(conflicts(t.expectations[k]) is None);
        assert(prepared_transaction::expects(ops[k], t.expectations[k], t.lod_count));
    } else {
        assert forall|i: int| 0 <= i < n implies (#[trigger] ops[i]).place() != place by {}
        prepared_transaction::operations_leave_other_keys(lods, ops, t.expectations, n, place);
    }
}

/// The first `n` operations of a transaction take blocks out in the order of
/// their keys, before the keys of all operations that follow.
proof fn lemma_removed_in_order(t: TransactionModel, lods: Seq<MapModel>, n: int)
    requires
        t.wf(),
        0 <= n <= t.operations.len(),
    ensures
        ({
            let removed = prepared_transaction::operations_removed(lods, t.operations, n);
            &&& forall|i: int, j: int|
                0 <= i < j < removed.len() ==> transaction::location_key(
                    (#[trigger] removed[i]).location,
                ) < transaction::location_key((#[trigger] removed[j]).location)
            &&& forall|i: int, k: int|
                0 <= i < removed.len() && n <= k < t.operations.len() ==> transaction::location_key(
                    (#[trigger] removed[i]).location,
                ) < transaction::location_key((#[trigger] t.operations[k]).place())
        }),
    decreases n,
{
    if n > 0 {
        lemma_removed_in_order(t, lods, n - 1);
        let before = prepared_transaction::operations_removed(lods, t.operations, n - 1);
        let removed = prepared_transaction::operations_removed(lods, t.operations, n);
        let last = t.operations[n - 1];
        assert forall|i: int| 0 <= i < removed.len() implies (i < before.len() && #[trigger] removed[i]
            == before[i]) || removed[i].location == last.place() by {}
        assert forall|i: int, j: int| 0 <= i < j < removed.len() implies transaction::location_key(
            (#[trigger] removed[i]).location,
        ) < transaction::location_key((#[trigger] removed[j]).location) by {
            assert(removed[i] == before[i]);
            if j < before.len() {
                assert(removed[j] == before[j]);
            } else {
                assert(removed[j].location == last.place());
            }
        }
    }
}

/// A commit hands out the blocks that it took out in the order of their keys: by
/// level, then by x, y and z.
pub proof fn removed_blocks_are_in_key_order(
    before: SharedModel,
    t: TransactionModel,
    failed: Option<SharedVoxelDataTransactionReservation>,
    removed: Seq<RemovedModel>,
    after: SharedModel,
    spent: TransactionModel,
    i: int,
    j: int,
)
    requires
        t.wf(),
        prepared_transaction::commit_outcome(before, t, failed, Ok(removed), after, spent),
        0 <= i < j < removed.len(),
    ensures
        ({
            let a = removed[i].location;
            let b = removed[j].location;
            a.lod_index < b.lod_index || a.lod_index == b.lod_index && (a.position.x < b.position.x
                || a.position.x == b.position.x && (a.position.y < b.position.y || a.position.y
                == b.position.y && a.position.z < b.position.z))
        }),
{
    lemma_removed_in_order(t, before.data.lods, t.operations.len() as int);
    transaction::lemma_location_key(removed[i].location, removed[j].location);
}

/// A freshly prepared transaction can be committed as long as blocks and
/// settings are as they were and changes are admitted, whatever else has
/// happened.
pub proof fn undisturbed_transactions_can_be_committed(
    s: SharedModel,
    ops: Seq<OperationModel>,
    now: SharedModel,
)
    requires
        prepared_transaction::prepare_refusal(s.data, ops, None) is None,
        now.data.lods == s.data.lods,
        now.settings_revision == s.settings_revision,
        !now.closed,
    ensures
        prepared_transaction::commit_refusal(
            now,
            prepared_transaction::freshly_prepared(s, ops, s.settings_revision),
            None,
        ) is None,
{
    let t = prepared_transaction::freshly_prepared(s, ops, s.settings_revision);
    let conflicts = prepared_transaction::expectation_conflicts(now.data, true);
    let observed = prepared_transaction::expectation_conflicts(now.data, false);
    let errors = transaction::operation_errors(s.data);
    collections::lemma_first_some_facts(ops, errors);
    assert forall|k: int| 0 <= k < t.expectations.len() implies conflicts(
        #[trigger] t.expectations[k],
    ) is None by {
        assert(errors(ops[k]) is None);
        assert(t.expectations[k] == transaction::expectation_of(s.data, ops[k]));
    }
    collections::lemma_first_some_facts(t.expectations, conflicts);
    collections::lemma_first_some_facts(t.observations, observed);
}

/// A transaction that changes or observes a key whose revision has changed is
/// refused.
pub proof fn disturbed_transactions_are_refused(
    now: SharedModel,
    t: TransactionModel,
    failed: Option<SharedVoxelDataTransactionReservation>,
    k: int,
    observation: bool,
)
    requires
        ({
            let list = if observation {
                t.observations
            } else {
                t.expectations
            };
            &&& 0 <= k < list.len()
            &&& now.data.lods[list[k].location.lod_index as int].key_revision(
                list[k].location.position,
            ) != list[k].expected_revision
        }),
    ensures
        prepared_transaction::commit_refusal(now, t, failed) is Some,
{
    let changes = prepared_transaction::expectation_conflicts(now.data, true);
    let observed = prepared_transaction::expectation_conflicts(now.data, false);
    collections::lemma_first_some_facts(t.expectations, changes);
    collections::lemma_first_some_facts(t.observations, observed);
    if observation {
        assert(observed(t.observations[k]) is Some);
    } else {
        assert(changes(t.expectations[k]) is Some);
    }
}

/// Snapshots of another preview, and previews of other data or settings, are
/// refused.
pub proof fn foreign_snapshots_are_refused(
    s: SharedModel,
    lineage: PreviewLineage,
    snapshots: Seq<SharedVoxelDataTransactionBlockSnapshot>,
    k: int,
)
    requires
        lineage.data != s.lineage || lineage.settings_revision != s.settings_revision || 0 <= k
            < snapshots.len() && snapshots[k]@.lineage != lineage,
    ensures
        transaction_preview::preview_denial(s, lineage, snapshots) is Some,
{
}

/// A voxel that has been set through an edit is read back, as far as the depth
/// of its block holds it, and the key of its block has one revision more.
pub proof fn edited_voxels_are_read_back(
    before: SharedModel,
    value: u64,
    pos: Vector3i,
    channel_index: usize,
    made: Option<BufferModel>,
    reserved: bool,
    after: SharedModel,
)
    requires
        before.data.wf(),
        shared_edits::edit_outcome(
            before,
            value,
            pos,
            channel_index,
            made,
            reserved,
            Ok(true),
            after,
        ),
    ensures
        ({
            let c = channel_index as int;
            let p = voxel_data_map::block_of(pos);
            let m = before.data.lods[0];
            let voxels = if m.has_voxels(p) {
                m.blocks[p].voxels->0
            } else {
                made->0
            };
            &&& after.data.resident(pos, c) == Some(voxels.channels[c].depth.truncated(value))
            &&& after.data.lods[0].revision(p) == m.revision(p) + 1
            &&& after.data.lods[0].blocks[p].modified
            &&& after.data.lods[0].blocks[p].edited
        }),
{
    let c = channel_index as int;
    let p = voxel_data_map::block_of(pos);
    let cell = voxel_data_map::local_of(pos);
    let m = before.data.lods[0];
    assert(m.wf());
    voxel_data_map::lemma_local(pos);
    let voxels = if m.has_voxels(p) {
        assert(m.blocks.contains_key(p));
        m.blocks[p].voxels->0
    } else {
        voxel_data_map::lemma_block_buffer(before.data.format);
        made->0
    };
    buffer_laws::set_voxels_are_read_back(voxels, c, cell, value, c, cell);
    let now = after.data.lods[0];
    assert(now.has_voxels(p));
    assert(now.blocks[p].voxels->0 == voxels.voxel_set(c, cell, value));
}

/// The block of an edit fits, and is of the level that it goes to if the block
/// that is there is.
proof fn lemma_draft_fits(
    s: SharedModel,
    pos: Vector3i,
    c: int,
    value: u64,
    made: Seq<BufferModel>,
    l: int,
)
    requires
        s.data.wf(),
        0 <= l < s.data.lods.len(),
        voxel_edit::edit_made(s.data, pos, made, s.data.lods.len() as int),
    ensures
        ({
            let q = voxel_edit::edited_position(pos, l);
            let m = s.data.lods[l];
            let draft = voxel_edit::edit_draft(s.data, pos, c, value, made, l);
            &&& voxel_data_map::block_fits(draft)
            &&& draft.lod_index == if m.has(q) {
                m.blocks[q].lod_index
            } else {
                l as u8
            }
        }),
{
    let q = voxel_edit::edited_position(pos, l);
    let m = s.data.lods[l];
    assert(m.wf());
    assert(voxel_edit::made_for(s.data, pos, l, made[l]));
    voxel_data_map::lemma_block_buffer(s.data.format);
    if m.has_voxels(q) {
        assert(m.blocks.contains_key(q));
    }
}

/// Each operation of an edit that is possible can be prepared.
proof fn lemma_edit_operation(
    s: SharedModel,
    pos: Vector3i,
    c: int,
    value: u64,
    made: Seq<BufferModel>,
    k: int,
)
    requires
        s.data.wf(),
        0 <= k < s.data.lods.len(),
        voxel_edit::first_stop(s, pos, s.data.lods.len() as int) is None,
        voxel_edit::first_overflow(s.data, pos, s.data.lods.len() as int) is None,
        voxel_edit::edit_made(s.data, pos, made, s.data.lods.len() as int),
        s.data.lods[k].has(voxel_edit::edited_position(pos, k))
            ==> s.data.lods[k].blocks[voxel_edit::edited_position(pos, k)].lod_index == k,
    ensures
        ({
            let op = voxel_edit::edit_operation(
                s.data,
                pos,
                voxel_edit::edit_draft(s.data, pos, c, value, made, k),
                k,
            );
            op.place() == voxel_edit::edited_location(pos, k) && transaction::operation_error(
                s.data,
                op,
            ) is None
        }),
{
    lemma_draft_fits(s, pos, c, value, made, k);
    voxel_edit::lemma_no_stop(s, pos, k, s.data.lods.len() as int);
    voxel_edit::lemma_no_overflow(s.data, pos, k, s.data.lods.len() as int);
}

/// An edit that is possible is prepared, unless memory is short, as long as
/// every block that it replaces is of the level that it is found at.
pub proof fn possible_edits_are_prepared(
    s: SharedModel,
    value: u64,
    pos: Vector3i,
    channel_index: usize,
    made: Seq<BufferModel>,
    snapshots: Seq<SharedVoxelDataTransactionBlockSnapshot>,
)
    requires
        s.data.wf(),
        voxel_edit::edit_answer(s, pos, channel_index, true, true) is Possible,
        voxel_edit::edit_made(s.data, pos, made, s.data.lods.len() as int),
        resident_copies::snapshots_of(snapshots) == voxel_edit::edit_snapshots(
            s.data,
            pos,
            voxel_edit::edit_lineage(s),
        ),
        forall|l: int|
            0 <= l < s.data.lods.len() && (#[trigger] s.data.lods[l]).has(
                voxel_edit::edited_position(pos, l),
            ) ==> s.data.lods[l].blocks[voxel_edit::edited_position(pos, l)].lod_index == l,
    ensures
        voxel_edit::edit_failure(
            s.data,
            voxel_edit::edit_operations(s.data, pos, channel_index as int, value, made),
            snapshots,
            None,
        ) is None,
{
    let d = s.data;
    let n = d.lods.len() as int;
    let c = channel_index as int;
    let ops = voxel_edit::edit_operations(d, pos, c, value, made);
    let errors = transaction::operation_errors(d);
    assert(snapshots.len() == resident_copies::snapshots_of(snapshots).len());
    assert forall|k: int| 0 <= k < n implies (#[trigger] ops[k]).place()
        == voxel_edit::edited_location(pos, k) && errors(ops[k]) is None by {
        assert(s.data.lods[k].has(voxel_edit::edited_position(pos, k))
            ==> s.data.lods[k].blocks[voxel_edit::edited_position(pos, k)].lod_index == k);
        lemma_edit_operation(s, pos, c, value, made, k);
    }
    assert forall|k: int| 0 <= k < n implies (#[trigger] snapshots[k])@
        == transaction_preview::snapshot_of(
        d,
        voxel_edit::edited_location(pos, k),
        voxel_edit::edit_lineage(s),
    ) by {
        assert(snapshots[k]@ == resident_copies::snapshots_of(snapshots)[k]);
    }
    lemma_edit_goes_together(s, ops, snapshots, pos);
    lemma_edit_without_duplicates(ops, pos, n);
    assert(prepared_transaction::prepare_refusal(d, ops, None) is None) by {
        collections::lemma_first_some_facts(ops, errors);
    }
}

/// The operations and fresh snapshots of an edit go together.
proof fn lemma_edit_goes_together(
    s: SharedModel,
    ops: Seq<OperationModel>,
    snapshots: Seq<SharedVoxelDataTransactionBlockSnapshot>,
    pos: Vector3i,
)
    requires
        ops.len() == snapshots.len(),
        ops.len() < MAX_LOD,
        forall|k: int|
            0 <= k < ops.len() ==> (#[trigger] ops[k]).place() == voxel_edit::edited_location(
                pos,
                k,
            ),
        forall|k: int|
            0 <= k < ops.len() ==> (#[trigger] snapshots[k])@ == transaction_preview::snapshot_of(
                s.data,
                voxel_edit::edited_location(pos, k),
                voxel_edit::edit_lineage(s),
            ),
    ensures
        !transaction_preview::set_mismatch(ops, snapshots),
        collections::first_some(
            snapshots,
            transaction_preview::snapshot_errors(s.data, ops),
        ) is None,
{
    assert forall|k: int| 0 < k < snapshots.len() implies (#[trigger] snapshots[k])@.location
        != snapshots[k - 1]@.location by {}
    assert forall|k: int| 0 <= k < ops.len() implies transaction_preview::looked_at(
        snapshots,
        (#[trigger] ops[k]).place(),
    ) by {
        assert(snapshots[k]@.location == ops[k].place());
    }
    let conflicts = transaction_preview::snapshot_errors(s.data, ops);
    assert forall|k: int| 0 <= k < snapshots.len() implies conflicts(
        #[trigger] snapshots[k],
    ) is None by {
        assert(ops[k].place() == snapshots[k]@.location);
        assert(transaction_preview::operated(ops, snapshots[k]@.location));
    }
    collections::lemma_first_some_facts(snapshots, conflicts);
}

/// The operations of an edit are at different levels.
proof fn lemma_edit_without_duplicates(ops: Seq<OperationModel>, pos: Vector3i, n: int)
    requires
        0 <= n <= ops.len(),
        n < MAX_LOD,
        forall|k: int|
            0 <= k < ops.len() ==> (#[trigger] ops[k]).place() == voxel_edit::edited_location(
                pos,
                k,
            ),
    ensures
        prepared_transaction::first_duplicate(ops, n) is None,
    decreases n,
{
    if n >= 2 {
        lemma_edit_without_duplicates(ops, pos, n - 1);
        assert(ops[n - 2].place() != ops[n - 1].place());
    }
}

/// Once a prepared edit has been committed, the voxel reads as its value, as far
/// as the depth of its block holds it.
pub proof fn committed_edits_are_read_back(
    s: SharedModel,
    value: u64,
    pos: Vector3i,
    channel_index: usize,
    made: Seq<BufferModel>,
    before: SharedModel,
    failed: Option<SharedVoxelDataTransactionReservation>,
    removed: Seq<RemovedModel>,
    after: SharedModel,
    spent: TransactionModel,
)
    requires
        s.data.wf(),
        before.data.wf(),
        channel_index < MAX_CHANNELS,
        before.data.lods.len() == s.data.lods.len(),
        voxel_edit::edit_made(s.data, pos, made, s.data.lods.len() as int),
        prepared_transaction::commit_outcome(
            before,
            prepared_transaction::freshly_prepared(
                s,
                voxel_edit::edit_operations(s.data, pos, channel_index as int, value, made),
                s.settings_revision,
            ),
            failed,
            Ok(removed),
            after,
            spent,
        ),
    ensures
        ({
            let c = channel_index as int;
            let base = voxel_edit::edit_base(s.data, pos, 0, made[0]);
            after.data.resident(pos, c) == Some(
                (base.voxels->0).channels[c].depth.truncated(value),
            )
        }),
{
    let c = channel_index as int;
    let d = s.data;
    let p = voxel_data_map::block_of(pos);
    let cell = voxel_data_map::local_of(pos);
    let ops = voxel_edit::edit_operations(d, pos, c, value, made);
    let t = prepared_transaction::freshly_prepared(s, ops, s.settings_revision);
    assert(d.lods[0].wf());
    voxel_data_map::lemma_local(pos);
    voxel_data_map::lemma_block_buffer(d.format);
    assert(voxel_edit::made_for(d, pos, 0, made[0]));
    if d.lods[0].has_voxels(p) {
        assert(d.lods[0].blocks.contains_key(p));
    }
    let base = voxel_edit::edit_base(d, pos, 0, made[0]);
    assert(voxel_edit::edited_position(pos, 0) == p);
    buffer_laws::set_voxels_are_read_back(base.voxels->0, c, cell, value, c, cell);
    assert forall|i: int| 0 <= i < ops.len() implies (#[trigger] ops[i]).place()
        == voxel_edit::edited_location(pos, i) by {}
    lemma_revision_applied(before.data.lods, ops, t.expectations, 0, ops.len() as int);
    let draft = voxel_edit::edit_draft(d, pos, c, value, made, 0);
    assert(draft.voxels == Some((base.voxels->0).voxel_set(c, cell, value)));
    let now = after.data.lods[0];
    assert(ops[0].payload() == Some(draft));
    assert(now.blocks.get(p) is Some);
    assert(now.blocks[p].voxels == draft.voxels);
}

/// A block has well-formed voxels of the extent of a block.
pub(crate) open spec fn full_block(b: BlockModel) -> bool {
    b.voxels matches Some(v) && v.wf() && v.size == Cell::splat(BLOCK_SIZE as int)
}

/// Voxel `o` of the octant that block `p` takes of its parent is a sample of the
/// block.
spec fn draft_samples(
    above: Map<Vector3i, BlockModel>,
    below: Map<Vector3i, BlockModel>,
    p: Vector3i,
    c: int,
    o: Cell,
) -> bool {
    let q = voxel_data_lods::parent_of(p);
    let parent = above[q].voxels->0;
    let depth = parent.channels[c].depth;
    &&& above.contains_key(q)
    &&& depth.truncated(parent.value(c, voxel_data_lods::octant_of(p).plus(o)))
        == depth.truncated((below[p].voxels->0).value(c, o.times(2)))
}

/// The drafts of a level hold samples of all blocks that they were made from.
proof fn lemma_drafts_sampled(
    m: MapModel,
    below: Map<Vector3i, BlockModel>,
    work: Seq<Vector3i>,
    made: Map<Vector3i, BufferModel>,
    last: bool,
    n: int,
    k: int,
    c: int,
    o: Cell,
)
    requires
        m.wf(),
        0 <= n <= work.len(),
        forall|j: int|
            0 <= j < work.len() ==> full_block(below[#[trigger] work[j]]) && {
                let q = voxel_data_lods::parent_of(work[j]);
                !m.has_voxels(q) ==> made[q].wf() && made[q].size == Cell::splat(BLOCK_SIZE as int)
            },
        0 <= c < MAX_CHANNELS,
        o.in_grid(Cell::splat(BLOCK_SIZE / 2)),
    ensures
        ({
            let drafts = shared_lods::level_drafts(m, below, work, made, last, n);
            &&& forall|q: Vector3i| #[trigger]
                drafts.contains_key(q) ==> full_block(drafts[q])
            &&& 0 <= k < n ==> draft_samples(drafts, below, work[k], c, o)
        }),
    decreases n,
{
    if n > 0 {
        lemma_drafts_sampled(m, below, work, made, last, n - 1, k, c, o);
        let before = shared_lods::level_drafts(m, below, work, made, last, n - 1);
        let p = work[n - 1];
        let q = voxel_data_lods::parent_of(p);
        let parent = if before.contains_key(q) {
            before[q]
        } else {
            shared_lods::destination_base(m, q, made)
        };
        assert(full_block(below[p]));
        assert(full_block(parent)) by {
            if !before.contains_key(q) && m.has_voxels(q) {
                assert(m.blocks.contains_key(q));
            }
        }
        let w = if 0 <= k < n {
            work[k]
        } else {
            p
        };
        data_laws::samples_fill_one_octant(parent.voxels->0, below[p].voxels->0, p, w, c, o);
    }
}

/// The drafts of level `l` are those of the blocks to be changed there, and all
/// have voxels.
pub(crate) proof fn lemma_update_drafts(
    d: DataModel,
    blocks: Seq<Vector3i>,
    made: Seq<Map<Vector3i, BufferModel>>,
    l: int,
)
    requires
        d.wf(),
        0 <= l < d.lods.len(),
        shared_lods::made_below(d, blocks, made, l),
    ensures
        ({
            let drafts = shared_lods::update_drafts(d, blocks, made, l);
            forall|p: Vector3i| #[trigger]
                drafts.contains_key(p) <==> shared_lods::update_work(d, blocks, l).contains(p)
        }),
        ({
            let drafts = shared_lods::update_drafts(d, blocks, made, l);
            forall|p: Vector3i| #[trigger] drafts.contains_key(p) ==> full_block(drafts[p])
        }),
    decreases l,
{
    let drafts = shared_lods::update_drafts(d, blocks, made, l);
    if l <= 0 {
        let set = Set::new(|p: Vector3i| blocks.contains(p) && d.lods[0].has_voxels(p));
        sorting::lemma_set_is_listed(set);
        assert forall|p: Vector3i| #[trigger] drafts.contains_key(p) implies full_block(
            drafts[p],
        ) by {
            assert(set.contains(p));
            assert(d.lods[0].blocks.contains_key(p));
        }
    } else {
        lemma_update_drafts(d, blocks, made, l - 1);
        let work = shared_lods::update_work(d, blocks, l - 1);
        let below = shared_lods::update_drafts(d, blocks, made, l - 1);
        let n = work.len() as int;
        let last = l == d.lods.len() - 1;
        lemma_level_ready(d, blocks, made, l);
        shared_lods::lemma_level_drafts(d.lods[l], below, work, made[l], last, n);
        lemma_drafts_sampled(d.lods[l], below, work, made[l], last, n, 0, 0, Cell::zero());
    }
}

/// The blocks to be carried to level `l` are drafted with voxels, and there are
/// new voxels for the parents that have none.
proof fn lemma_level_ready(
    d: DataModel,
    blocks: Seq<Vector3i>,
    made: Seq<Map<Vector3i, BufferModel>>,
    l: int,
)
    requires
        d.wf(),
        1 <= l < d.lods.len(),
        shared_lods::made_below(d, blocks, made, l),
        ({
            let below = shared_lods::update_drafts(d, blocks, made, l - 1);
            forall|p: Vector3i| #[trigger]
                below.contains_key(p) <==> shared_lods::update_work(d, blocks, l - 1).contains(p)
        }),
        ({
            let below = shared_lods::update_drafts(d, blocks, made, l - 1);
            forall|p: Vector3i| #[trigger] below.contains_key(p) ==> full_block(below[p])
        }),
    ensures
        ({
            let work = shared_lods::update_work(d, blocks, l - 1);
            let below = shared_lods::update_drafts(d, blocks, made, l - 1);
            forall|j: int|
                0 <= j < work.len() ==> full_block(below[#[trigger] work[j]]) && {
                    let q = voxel_data_lods::parent_of(work[j]);
                    !d.lods[l].has_voxels(q) ==> made[l][q].wf() && made[l][q].size == Cell::splat(
                        BLOCK_SIZE as int,
                    )
                }
        }),
        d.lods[l].wf(),
{
    let work = shared_lods::update_work(d, blocks, l - 1);
    let below = shared_lods::update_drafts(d, blocks, made, l - 1);
    let next = shared_lods::update_work(d, blocks, l);
    shared_lods::lemma_parents(work, work.len() as int);
    voxel_data_map::lemma_block_buffer(d.format);
    assert(shared_lods::made_at(d, l, next, made[l]));
    assert forall|j: int| 0 <= j < work.len() implies full_block(below[#[trigger] work[j]]) && {
        let q = voxel_data_lods::parent_of(work[j]);
        !d.lods[l].has_voxels(q) ==> made[l][q].wf() && made[l][q].size == Cell::splat(
            BLOCK_SIZE as int,
        )
    } by {
        assert(work.contains(work[j]));
        assert(below.contains_key(work[j]));
        assert(next.contains(voxel_data_lods::parent_of(work[j])));
    }
}

/// After an update of the coarser levels of shared data, the octant that a
/// changed block takes of its parent holds every second voxel of the block, in
/// each direction, as far as the depth of the parent holds them.
pub proof fn shared_updates_sample_every_octant(
    before: SharedModel,
    blocks: Seq<Vector3i>,
    made: Seq<Map<Vector3i, BufferModel>>,
    reserved: bool,
    r: Result<Seq<BlockLocation>, SharedVoxelDataMutationError>,
    after: SharedModel,
    l: int,
    p: Vector3i,
    c: int,
    o: Cell,
)
    requires
        before.data.wf(),
        blocks.len() > 0,
        shared_lods::update_outcome(before, blocks, made, reserved, r, after),
        r is Ok,
        1 <= l < before.data.lods.len(),
        shared_lods::update_work(before.data, blocks, l - 1).contains(p),
        0 <= c < MAX_CHANNELS,
        o.in_grid(Cell::splat(BLOCK_SIZE / 2)),
    ensures
        data_laws::octant_samples(after.data.lods, l, p, c, o),
{
    let d = before.data;
    let n = d.lods.len() as int;
    let drafts = shared_lods::all_drafts(d, blocks, made);
    let work = shared_lods::update_work(d, blocks, l - 1);
    let below = shared_lods::update_drafts(d, blocks, made, l - 1);
    let above = shared_lods::update_drafts(d, blocks, made, l);
    assert(shared_lods::made_below(d, blocks, made, n - 1));
    assert(shared_lods::made_below(d, blocks, made, l));
    assert(shared_lods::made_below(d, blocks, made, l - 1));
    lemma_update_drafts(d, blocks, made, l - 1);
    lemma_update_drafts(d, blocks, made, l);
    lemma_level_ready(d, blocks, made, l);
    let k = choose|k: int| 0 <= k < work.len() && work[k] == p;
    lemma_drafts_sampled(
        d.lods[l],
        below,
        work,
        made[l],
        l == n - 1,
        work.len() as int,
        k,
        c,
        o,
    );
    let q = voxel_data_lods::parent_of(p);
    sorting::lemma_set_is_listed(below.dom());
    sorting::lemma_set_is_listed(above.dom());
    assert(drafts[l] == above && drafts[l - 1] == below);
    assert(above.contains_key(q) && full_block(above[q]));
    assert(below.contains_key(p) && full_block(below[p]));
    assert(after.data.lods[l].blocks[q] == above[q]);
    assert(after.data.lods[l - 1].blocks[p] == below[p]);
}

} // verus!
