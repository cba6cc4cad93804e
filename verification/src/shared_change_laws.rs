//! What changes of shared data come to, block by block.

use crate::area_laws;
use crate::boxes::Box3i;
use crate::buffer_laws;
use crate::buffer_model::BufferModel;
use crate::channel::MAX_CHANNELS;
use crate::collections;
use crate::grid::Cell;
use crate::map_areas;
use crate::math::Vector3i;
use crate::mutation_error::SharedVoxelDataTransactionReservation;
use crate::prepared_transaction;
use crate::prepared_transaction::{RemovedModel, TransactionModel};
use crate::resident_copies;
use crate::resident_copies::PreparedResidentDirtyCopies;
use crate::save_laws;
use crate::shared_data::SharedModel;
use crate::shared_edits;
use crate::shared_marks;
use crate::sorting;
use crate::transaction::OperationModel;
use crate::transaction_preview::PreviewLineage;
use crate::voxel_data;
use crate::voxel_data::{BlockLocation, DataModel, SaveModel};
use crate::voxel_data_block::BlockModel;
use crate::voxel_data_map;
use crate::voxel_data_map::{MapModel, BLOCK_SIZE};
use vstd::prelude::*;

verus! {

/// Marking an area of shared data, where that succeeds: every block with voxels of
/// the finest level that has a voxel of the area is modified and edited, and waits
/// for an update if that is wanted. A block that was not marked like that before
/// gets one revision more. Nothing else changes. Listed are the blocks that begin
/// to wait.
pub proof fn shared_marking_marks_blocks_with_voxels(
    before: SharedModel,
    voxel_box: Box3i,
    require_lod_updates: bool,
    reserved: bool,
    listed: Seq<Vector3i>,
    after: SharedModel,
    l: int,
    p: Vector3i,
)
    requires
        before.data.wf(),
        !voxel_box.vacant(),
        shared_marks::mark_outcome(
            before,
            voxel_box,
            require_lod_updates,
            reserved,
            Ok(listed),
            after,
        ),
        0 <= l < before.data.lods.len(),
    ensures
        ({
            let m = before.data.lods[0];
            let now = after.data.lods[0];
            let reached = area_laws::meets_voxels(voxel_box, 0, p) && m.blocks.contains_key(p)
                && m.blocks[p].voxels is Some;
            let wanted = BlockModel {
                modified: true,
                edited: true,
                needs_lodding: m.blocks[p].needs_lodding || require_lod_updates,
                ..m.blocks[p]
            };
            &&& after.data.lods.len() == before.data.lods.len()
            &&& l > 0 ==> after.data.lods[l] == before.data.lods[l]
            &&& now.blocks.get(p) == if reached {
                Some(wanted)
            } else {
                m.blocks.get(p)
            }
            &&& now.revision(p) == if reached && m.blocks[p] != wanted {
                m.revision(p) + 1
            } else {
                m.revision(p) as int
            }
            &&& listed.contains(p) <==> reached && require_lod_updates
                && !m.blocks[p].needs_lodding
        }),
{
    let m = before.data.lods[0];
    let touched = voxel_data::touched_blocks(voxel_box).cells();
    let unmarked = |q: Vector3i| shared_marks::mark_wanted(m, require_lod_updates, q);
    let newly = |q: Vector3i| require_lod_updates && map_areas::newly_needs_lod(m, q);
    let cells = shared_marks::mark_cells(m, voxel_box, require_lod_updates);
    area_laws::lemma_touched(voxel_box, p);
    collections::lemma_filter_facts(touched, unmarked);
    collections::lemma_filter_facts(cells, newly);
    assert(cells == touched.filter(unmarked));
    assert(cells.contains(p) <==> touched.contains(p) && unmarked(p));
    if cells.contains(p) {
        assert(shared_marks::key_error(m, 0, p) is None);
    }
    if m.blocks.contains_key(p) && m.blocks[p].voxels is Some && !unmarked(p) {
        assert(m.blocks[p] =~= BlockModel {
            modified: true,
            edited: true,
            needs_lodding: m.blocks[p].needs_lodding || require_lod_updates,
            ..m.blocks[p]
        });
    }
}

/// What has to be saved of one level: every modified block once, with the voxels
/// and the revision that it has.
proof fn lemma_level_saves(m: MapModel, l: int, i: int, j: int, p: Vector3i)
    requires
        0 <= l < 256,
    ensures
        ({
            let saves = shared_marks::level_saves(m, l);
            &&& 0 <= i < saves.len() ==> save_laws::holds_modified_block(m, l, saves[i])
                && saves[i].block_revision == m.revision(saves[i].position)
            &&& 0 <= i < j < saves.len() ==> saves[i].position@.before(saves[j].position@)
            &&& m.blocks.contains_key(p) && m.blocks[p].modified ==> exists|k: int|
                0 <= k < saves.len() && (#[trigger] saves[k]).position == p
        }),
{
    let saves = shared_marks::level_saves(m, l);
    let list = shared_marks::dirty_list(m);
    sorting::lemma_set_is_listed(shared_marks::dirty_set(m));
    assert(sorting::lists(list, shared_marks::dirty_set(m)));
    if 0 <= i < saves.len() {
        assert(list.contains(list[i]));
        assert(shared_marks::dirty_set(m).contains(list[i]));
    }
    if 0 <= i < j < saves.len() {
        sorting::lemma_zxy_key(list[i], list[j]);
        assert(saves[i].position == list[i] && saves[j].position == list[j]);
    }
    if m.blocks.contains_key(p) && m.blocks[p].modified {
        assert(shared_marks::dirty_set(m).contains(p));
        assert(list.contains(p));
        let k = choose|k: int| 0 <= k < list.len() && list[k] == p;
        assert(saves[k].position == p);
    }
}

/// What has to be saved of the first `n` levels.
proof fn lemma_dirty_saves(lods: Seq<MapModel>, n: int, i: int, l: int, p: Vector3i)
    requires
        0 <= n <= lods.len(),
        n <= 256,
    ensures
        ({
            let saves = shared_marks::dirty_saves(lods, n);
            &&& 0 <= i < saves.len() ==> {
                let s = saves[i];
                &&& 0 <= s.lod_index < n
                &&& save_laws::holds_modified_block(
                    lods[s.lod_index as int],
                    s.lod_index as int,
                    s,
                )
                &&& s.block_revision == lods[s.lod_index as int].revision(s.position)
            }
            &&& 0 <= l < n && lods[l].blocks.contains_key(p) && lods[l].blocks[p].modified
                ==> exists|k: int|
                0 <= k < saves.len() && (#[trigger] saves[k]).position == p && saves[k].lod_index
                    == l
        }),
    decreases n,
{
    if n > 0 {
        let saves = shared_marks::dirty_saves(lods, n);
        let a = shared_marks::dirty_saves(lods, n - 1);
        let b = shared_marks::level_saves(lods[n - 1], n - 1);
        lemma_dirty_saves(lods, n - 1, i, l, p);
        lemma_level_saves(lods[n - 1], n - 1, i - a.len(), 0, p);
        assert(saves == a + b);
        if 0 <= l < n && lods[l].blocks.contains_key(p) && lods[l].blocks[p].modified {
            if l < n - 1 {
                let k = choose|k: int|
                    0 <= k < a.len() && (#[trigger] a[k]).position == p && a[k].lod_index == l;
                assert(saves[k] == a[k]);
            } else {
                let k = choose|k: int| 0 <= k < b.len() && (#[trigger] b[k]).position == p;
                lemma_level_saves(lods[n - 1], n - 1, k, k, p);
                assert(saves[a.len() + k] == b[k]);
            }
        }
    }
}

/// Taking all that is modified of shared data, where that succeeds: every modified
/// block is handed out with its voxels and its revision. It is then no longer
/// modified and has one revision more; nothing else changes.
pub proof fn shared_saves_hold_every_modified_block(
    before: SharedModel,
    reserved: bool,
    saves: Seq<SaveModel>,
    after: SharedModel,
    i: int,
    l: int,
    p: Vector3i,
)
    requires
        before.data.wf(),
        shared_marks::consume_outcome(before, reserved, Ok(saves), after),
        0 <= l < before.data.lods.len(),
    ensures
        0 <= i < saves.len() ==> {
            let s = saves[i];
            &&& 0 <= s.lod_index < before.data.lods.len()
            &&& save_laws::holds_modified_block(
                before.data.lods[s.lod_index as int],
                s.lod_index as int,
                s,
            )
            &&& s.block_revision == before.data.lods[s.lod_index as int].revision(s.position)
        },
        ({
            let m = before.data.lods[l];
            let now = after.data.lods[l];
            let dirty = m.blocks.contains_key(p) && m.blocks[p].modified;
            &&& after.data.lods.len() == before.data.lods.len()
            &&& dirty ==> exists|k: int|
                0 <= k < saves.len() && (#[trigger] saves[k]).position == p && saves[k].lod_index
                    == l
            &&& dirty ==> now.blocks.get(p) == Some(BlockModel { modified: false, ..m.blocks[p] })
                && now.revision(p) == m.revision(p) + 1
            &&& !dirty ==> now.blocks.get(p) == m.blocks.get(p) && now.revision(p) == m.revision(p)
        }),
{
    let lods = before.data.lods;
    let n = lods.len() as int;
    lemma_dirty_saves(lods, n, i, l, p);
    let m = lods[l];
    sorting::lemma_set_is_listed(shared_marks::dirty_set(m));
    let list = shared_marks::dirty_list(m);
    assert(sorting::lists(list, shared_marks::dirty_set(m)));
    assert(list.contains(p) <==> shared_marks::dirty_set(m).contains(p)) by {
        sorting::lemma_listing(list, shared_marks::dirty_set(m));
    }
    assert(!shared_marks::stuck_at(lods, l, p));
    assert(after.data.lods[l] == shared_marks::consumed(m));
}

/// The copies of all modified blocks: one for each, in the order of the operations
/// that clear them, with the voxels and the revision that the block has.
pub proof fn dirty_copies_hold_every_modified_block(
    d: DataModel,
    lineage: PreviewLineage,
    places: Seq<BlockLocation>,
    failed: Option<SharedVoxelDataTransactionReservation>,
    room: nat,
    c: PreparedResidentDirtyCopies,
    k: int,
    place: BlockLocation,
)
    requires
        resident_copies::copies_outcome(d, lineage, places, failed, room, Ok(c)),
    ensures
        c@.operations.len() == c@.payloads.len(),
        c@.snapshots.len() == c@.payloads.len(),
        0 <= k < c@.payloads.len() ==> {
            let s = c@.payloads[k];
            let l = s.location.lod_index as int;
            &&& l < d.lods.len()
            &&& d.lods[l].blocks.contains_key(s.location.position)
            &&& d.lods[l].blocks[s.location.position].modified
            &&& d.lods[l].blocks[s.location.position].voxels == Some(s.voxels)
            &&& s.block_revision == d.lods[l].revision(s.location.position)
            &&& c@.operations[k] == (OperationModel::ClearModified { location: s.location })
            &&& c@.snapshots[k].location == s.location
        },
        place.lod_index < d.lods.len() && d.lods[place.lod_index as int].blocks.contains_key(
            place.position,
        ) && d.lods[place.lod_index as int].blocks[place.position].modified ==> exists|i: int|
            0 <= i < c@.payloads.len() && (#[trigger] c@.payloads[i]).location == place,
{
    if 0 <= k < c@.payloads.len() {
        assert(places.contains(places[k]));
        assert(resident_copies::dirty_at(d, places[k]));
        collections::lemma_first_some_facts(places, resident_copies::dirty_errors(d));
        assert(resident_copies::dirty_errors(d)(places[k]) is None);
    }
    if resident_copies::dirty_at(d, place) {
        assert(places.contains(place));
        let i = choose|i: int| 0 <= i < places.len() && places[i] == place;
        assert(c@.payloads[i].location == place);
    }
}

/// The voxels that setting a voxel of shared data starts from: those of the block,
/// or `made`.
pub open spec fn block_before(m: MapModel, p: Vector3i, made: BufferModel) -> BufferModel {
    if m.blocks.contains_key(p) && m.blocks[p].voxels is Some {
        m.blocks[p].voxels->0
    } else {
        made
    }
}

/// A voxel of shared data that has been set, directly or through an edit: its
/// block has the voxel set and all others as before, as far as the depth holds
/// them; the key of the block has one revision more; all other blocks and all
/// other levels stay. An edit also marks the block as modified and edited;
/// setting directly leaves that as it is.
pub proof fn setting_shared_voxels_changes_one_block(
    before: SharedModel,
    value: u64,
    pos: Vector3i,
    channel_index: usize,
    made: Option<BufferModel>,
    reserved: bool,
    after: SharedModel,
    edit: bool,
    k: int,
    cell: Cell,
    l: int,
    q: Vector3i,
)
    requires
        before.data.wf(),
        edit ==> shared_edits::edit_outcome(
            before,
            value,
            pos,
            channel_index,
            made,
            reserved,
            Ok(true),
            after,
        ),
        !edit ==> shared_edits::set_outcome(
            before,
            value,
            pos,
            channel_index,
            reserved,
            Ok(true),
            after,
        ) && made == Some(voxel_data_map::block_buffer(before.data.format)),
        0 <= k < MAX_CHANNELS,
        cell.in_grid(Cell::splat(16)),
        0 <= l < before.data.lods.len(),
    ensures
        ({
            let p = voxel_data_map::block_of(pos);
            let m = before.data.lods[0];
            let now = after.data.lods[0];
            let from = block_before(m, p, made->0);
            let depth = from.channels[k].depth;
            &&& area_laws::in_box(before.data.bounds, pos)
            &&& after.data.lods.len() == before.data.lods.len()
            &&& now.has_voxels(p)
            &&& (now.blocks[p].voxels->0).value(k, cell) == if k != channel_index {
                from.value(k, cell)
            } else if cell == voxel_data_map::local_of(pos) {
                depth.truncated(value)
            } else {
                depth.truncated(from.value(k, cell))
            }
            &&& now.revision(p) == m.revision(p) + 1
            &&& m.blocks.contains_key(p) ==> now.blocks[p].viewers == m.blocks[p].viewers
                && now.blocks[p].needs_lodding == m.blocks[p].needs_lodding
            &&& edit ==> now.blocks[p].modified && now.blocks[p].edited
            &&& !edit ==> now.blocks[p].modified == (m.blocks.contains_key(p)
                && m.blocks[p].modified) && now.blocks[p].edited == (m.blocks.contains_key(p)
                && m.blocks[p].edited)
            &&& l > 0 ==> after.data.lods[l] == before.data.lods[l]
            &&& q != p ==> now.blocks.get(q) == m.blocks.get(q) && now.revision(q) == m.revision(q)
        }),
{
    let c = channel_index as int;
    let p = voxel_data_map::block_of(pos);
    let at = voxel_data_map::local_of(pos);
    let m = before.data.lods[0];
    assert(m.wf());
    voxel_data_map::lemma_local(pos);
    voxel_data_map::lemma_block_buffer(before.data.format);
    if m.has_voxels(p) {
        assert(m.blocks.contains_key(p));
    }
    let from = block_before(m, p, made->0);
    assert(from.wf() && from.size == Cell::splat(BLOCK_SIZE as int));
    buffer_laws::set_voxels_are_read_back(from, c, at, value, k, cell);
    let now = after.data.lods[0];
    assert(now.blocks[p].voxels->0 == from.voxel_set(c, at, value));
}

/// Putting a block into shared data succeeds only where none is there; the block
/// is then there as it was given, its key has one revision more, and nothing else
/// changes. Where one is there, nothing changes.
pub proof fn shared_insertions_put_the_block_in(
    before: SharedModel,
    p: Vector3i,
    block: BlockModel,
    reserved: bool,
    done: bool,
    after: SharedModel,
    l: int,
    q: Vector3i,
)
    requires
        before.data.wf(),
        block.lod_index < before.data.lods.len(),
        shared_edits::insert_outcome(before, p, block, reserved, Ok(done), after),
        0 <= l < before.data.lods.len(),
    ensures
        ({
            let k = block.lod_index as int;
            let m = before.data.lods[k];
            &&& done == !m.blocks.contains_key(p)
            &&& !done ==> after == before
            &&& done ==> after.data.lods[k].blocks.get(p) == Some(block)
                && after.data.lods[k].revision(p) == m.revision(p) + 1
            &&& l != k || q != p ==> after.data.lods[l].blocks.get(q)
                == before.data.lods[l].blocks.get(q) && after.data.lods[l].revision(q)
                == before.data.lods[l].revision(q)
        }),
{
}

/// The blocks that a committed transaction hands out are those that its operations
/// have replaced or removed, as they were, with the revisions that they had.
pub proof fn removed_blocks_are_what_was_there(
    before: SharedModel,
    t: TransactionModel,
    failed: Option<SharedVoxelDataTransactionReservation>,
    removed: Seq<RemovedModel>,
    after: SharedModel,
    spent: TransactionModel,
    i: int,
    k: int,
)
    requires
        prepared_transaction::commit_outcome(before, t, failed, Ok(removed), after, spent),
    ensures
        0 <= i < removed.len() ==> {
            let place = removed[i].location;
            let m = before.data.lods[place.lod_index as int];
            &&& removed[i].block == m.blocks[place.position]
            &&& removed[i].block_revision == m.revision(place.position)
            &&& exists|j: int|
                0 <= j < t.operations.len() && (#[trigger] t.operations[j]).place() == place && (
                t.operations[j] is Replace || t.operations[j] is Remove)
        },
        0 <= k < t.operations.len() && (t.operations[k] is Replace || t.operations[k] is Remove)
            ==> exists|j: int|
            0 <= j < removed.len() && (#[trigger] removed[j]).location == t.operations[k].place(),
{
    lemma_removed(before.data.lods, t.operations, t.operations.len() as int, i, k);
}

proof fn lemma_removed(
    lods: Seq<MapModel>,
    ops: Seq<OperationModel>,
    n: int,
    i: int,
    k: int,
)
    requires
        0 <= n <= ops.len(),
    ensures
        ({
            let removed = prepared_transaction::operations_removed(lods, ops, n);
            &&& 0 <= i < removed.len() ==> {
                let place = removed[i].location;
                let m = lods[place.lod_index as int];
                &&& removed[i].block == m.blocks[place.position]
                &&& removed[i].block_revision == m.revision(place.position)
                &&& exists|j: int|
                    0 <= j < n && (#[trigger] ops[j]).place() == place && (ops[j] is Replace
                        || ops[j] is Remove)
            }
            &&& 0 <= k < n && (ops[k] is Replace || ops[k] is Remove) ==> exists|j: int|
                0 <= j < removed.len() && (#[trigger] removed[j]).location == ops[k].place()
        }),
    decreases n,
{
    if n > 0 {
        lemma_removed(lods, ops, n - 1, i, k);
        let removed = prepared_transaction::operations_removed(lods, ops, n);
        let earlier = prepared_transaction::operations_removed(lods, ops, n - 1);
        if 0 <= i < earlier.len() {
            assert(removed[i] == earlier[i]);
        } else if 0 <= i < removed.len() {
            assert(ops[n - 1].place() == removed[i].location);
        }
        if 0 <= k < n && (ops[k] is Replace || ops[k] is Remove) {
            if k < n - 1 {
                let j = choose|j: int|
                    0 <= j < earlier.len() && (#[trigger] earlier[j]).location == ops[k].place();
                assert(removed[j] == earlier[j]);
            } else {
                assert(removed[earlier.len() as int].location == ops[k].place());
            }
        }
    }
}

} // verus!
