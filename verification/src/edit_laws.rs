//! What edits and transactions on shared data come to, block by block and voxel
//! by voxel.

use crate::buffer_laws;
use crate::buffer_model::BufferModel;
use crate::channel::MAX_CHANNELS;
use crate::collections;
use crate::data_laws;
use crate::depth::ChannelDepth;
use crate::grid::Cell;
use crate::level_laws;
use crate::math::Vector3i;
use crate::mutation_error::SharedVoxelDataTransactionReservation;
use crate::place_laws;
use crate::prepared_transaction;
use crate::prepared_transaction::{RemovedModel, TransactionModel};
use crate::shared_data::SharedModel;
use crate::shared_laws;
use crate::transaction::OperationModel;
use crate::voxel_data::{BlockLocation, DataModel};
use crate::voxel_data_block::BlockModel;
use crate::voxel_data_lods;
use crate::voxel_data_map;
use crate::voxel_data_map::BLOCK_SIZE;
use crate::voxel_edit;
use vstd::arithmetic::power2::{lemma2_to64, lemma_pow2_pos, lemma_pow2_unfold, pow2};
use vstd::prelude::*;

verus! {

/// The voxels of the block of level `l` that an edit of voxel `pos` starts from:
/// those that are there, or new ones.
pub open spec fn voxels_before(
    d: DataModel,
    pos: Vector3i,
    made: Seq<BufferModel>,
    l: int,
) -> BufferModel {
    let q = voxel_edit::edited_position(pos, l);
    if d.lods[l].blocks.contains_key(q) && d.lods[l].blocks[q].voxels is Some {
        d.lods[l].blocks[q].voxels->0
    } else {
        made[l]
    }
}

/// The drafts of an edit have well-formed voxels of the extent of a block.
proof fn lemma_draft_wf(
    d: DataModel,
    pos: Vector3i,
    c: int,
    value: u64,
    made: Seq<BufferModel>,
    l: int,
)
    requires
        d.wf(),
        0 <= c < MAX_CHANNELS,
        0 <= l < d.lods.len(),
        voxel_edit::edit_made(d, pos, made, d.lods.len() as int),
    ensures
        ({
            let base = voxel_edit::edit_base(d, pos, l, made[l]);
            let draft = voxel_edit::edit_draft(d, pos, c, value, made, l);
            &&& base.voxels == Some(voxels_before(d, pos, made, l))
            &&& voxels_before(d, pos, made, l).wf()
            &&& voxels_before(d, pos, made, l).size == Cell::splat(BLOCK_SIZE as int)
            &&& draft.voxels is Some
            &&& (draft.voxels->0).wf()
            &&& (draft.voxels->0).size == Cell::splat(BLOCK_SIZE as int)
        }),
    decreases l,
{
    let q = voxel_edit::edited_position(pos, l);
    let m = d.lods[l];
    assert(m.wf());
    assert(voxel_edit::made_for(d, pos, l, made[l]));
    voxel_data_map::lemma_block_buffer(d.format);
    if m.has_voxels(q) {
        assert(m.blocks.contains_key(q));
    }
    let from = voxels_before(d, pos, made, l);
    if l > 0 {
        lemma_draft_wf(d, pos, c, value, made, l - 1);
        let below = voxel_edit::edit_draft(d, pos, c, value, made, l - 1);
        data_laws::samples_fill_one_octant(
            from,
            below.voxels->0,
            voxel_edit::edited_position(pos, l - 1),
            voxel_edit::edited_position(pos, l - 1),
            0,
            Cell::zero(),
        );
    } else {
        let cell = voxel_data_map::local_of(pos);
        voxel_data_map::lemma_local(pos);
        buffer_laws::set_voxels_are_read_back(from, c, cell, value, c, cell);
    }
}

/// Every draft of an edit above the finest level samples the draft below it,
/// whether or not the block had voxels before: in the octant of the block below
/// it holds every second voxel of it, as far as the depth holds them. The other
/// octants keep what they had. Every draft is modified and waits for nothing; the
/// rest of the state of a block stays.
pub proof fn drafted_levels_sample_the_level_below(
    d: DataModel,
    pos: Vector3i,
    c: int,
    value: u64,
    made: Seq<BufferModel>,
    l: int,
    sibling: Vector3i,
    k: int,
    o: Cell,
)
    requires
        d.wf(),
        0 <= c < MAX_CHANNELS,
        1 <= l < d.lods.len(),
        voxel_edit::edit_made(d, pos, made, d.lods.len() as int),
        0 <= k < MAX_CHANNELS,
        o.in_grid(Cell::splat(8)),
    ensures
        ({
            let below = voxel_edit::edit_draft(d, pos, c, value, made, l - 1);
            let draft = voxel_edit::edit_draft(d, pos, c, value, made, l);
            let p = voxel_edit::edited_position(pos, l - 1);
            let q = voxel_edit::edited_position(pos, l);
            let from = voxels_before(d, pos, made, l);
            let depth = from.channels[k].depth;
            &&& below.voxels is Some && draft.voxels is Some
            &&& (draft.voxels->0).channels[k].depth == depth
            &&& depth.truncated(
                (draft.voxels->0).value(k, voxel_data_lods::octant_of(p).plus(o)),
            ) == depth.truncated((below.voxels->0).value(k, o.times(2)))
            &&& sibling != p && voxel_data_lods::parent_of(sibling) == q ==> depth.truncated(
                (draft.voxels->0).value(k, voxel_data_lods::octant_of(sibling).plus(o)),
            ) == depth.truncated(from.value(k, voxel_data_lods::octant_of(sibling).plus(o)))
            &&& draft.modified && !draft.needs_lodding
            &&& d.lods[l].has(q) ==> draft.viewers == d.lods[l].blocks[q].viewers && draft.edited
                == d.lods[l].blocks[q].edited && draft.lod_index == d.lods[l].blocks[q].lod_index
        }),
{
    lemma_draft_wf(d, pos, c, value, made, l - 1);
    lemma_draft_wf(d, pos, c, value, made, l);
    let below = voxel_edit::edit_draft(d, pos, c, value, made, l - 1);
    data_laws::samples_fill_one_octant(
        voxels_before(d, pos, made, l),
        below.voxels->0,
        voxel_edit::edited_position(pos, l - 1),
        sibling,
        k,
        o,
    );
}

/// The draft of the finest level has the voxel set and all other voxels as they
/// were, as far as the depth holds them; other channels stay. It is modified and
/// edited and waits for nothing.
pub proof fn the_finest_draft_has_the_voxel_set(
    d: DataModel,
    pos: Vector3i,
    c: int,
    value: u64,
    made: Seq<BufferModel>,
    k: int,
    cell: Cell,
)
    requires
        d.wf(),
        0 <= c < MAX_CHANNELS,
        voxel_edit::edit_made(d, pos, made, d.lods.len() as int),
        0 <= k < MAX_CHANNELS,
        cell.in_grid(Cell::splat(16)),
    ensures
        ({
            let draft = voxel_edit::edit_draft(d, pos, c, value, made, 0);
            let from = voxels_before(d, pos, made, 0);
            let depth = from.channels[k].depth;
            &&& draft.voxels is Some
            &&& (draft.voxels->0).value(k, cell) == if k != c {
                from.value(k, cell)
            } else if cell == voxel_data_map::local_of(pos) {
                depth.truncated(value)
            } else {
                depth.truncated(from.value(k, cell))
            }
            &&& draft.modified && draft.edited && !draft.needs_lodding
        }),
{
    lemma_draft_wf(d, pos, c, value, made, 0);
    voxel_data_map::lemma_local(pos);
    buffer_laws::set_voxels_are_read_back(
        voxels_before(d, pos, made, 0),
        c,
        voxel_data_map::local_of(pos),
        value,
        k,
        cell,
    );
}

/// A committed edit puts its drafts in: at every level, the block that the voxel
/// lies in has the voxels of the draft, and no other block of any level changes.
pub proof fn committed_edits_put_their_drafts_in(
    s: SharedModel,
    value: u64,
    pos: Vector3i,
    channel_index: usize,
    made: Seq<BufferModel>,
    before: SharedModel,
    failed: Option<SharedVoxelDataTransactionReservation>,
    removed: Seq<RemovedModel>,
    after: SharedModel,
    spent: TransactionModel,
    l: int,
    p: Vector3i,
)
    requires
        s.data.wf(),
        before.data.wf(),
        channel_index < MAX_CHANNELS,
        before.data.lods.len() == s.data.lods.len(),
        voxel_edit::edit_made(s.data, pos, made, s.data.lods.len() as int),
        prepared_transaction::commit_outcome(
            before,
            prepared_transaction::freshly_prepared(
                s,
                voxel_edit::edit_operations(s.data, pos, channel_index as int, value, made),
                s.settings_revision,
            ),
            failed,
            Ok(removed),
            after,
            spent,
        ),
        0 <= l < s.data.lods.len(),
    ensures
        ({
            let draft = voxel_edit::edit_draft(
                s.data,
                pos,
                channel_index as int,
                value,
                made,
                l,
            );
            let q = voxel_edit::edited_position(pos, l);
            &&& after.data.lods.len() == before.data.lods.len()
            &&& after.data.lods[l].has_voxels(q)
            &&& after.data.lods[l].blocks[q].voxels == draft.voxels
            &&& after.data.lods[l].blocks[q].modified
            &&& !after.data.lods[l].blocks[q].needs_lodding
            &&& p != q ==> after.data.lods[l].blocks.get(p) == before.data.lods[l].blocks.get(p)
        }),
{
    let c = channel_index as int;
    let d = s.data;
    let q = voxel_edit::edited_position(pos, l);
    let ops = voxel_edit::edit_operations(d, pos, c, value, made);
    let t = prepared_transaction::freshly_prepared(s, ops, s.settings_revision);
    lemma_draft_wf(d, pos, c, value, made, l);
    assert forall|i: int| 0 <= i < ops.len() implies (#[trigger] ops[i]).place()
        == voxel_edit::edited_location(pos, i) by {}
    shared_laws::lemma_revision_applied(
        before.data.lods,
        ops,
        t.expectations,
        l,
        ops.len() as int,
    );
    let draft = voxel_edit::edit_draft(d, pos, c, value, made, l);
    assert(ops[l].payload() == Some(draft));
    assert(after.data.lods[l].blocks.get(q) is Some);
    if p != q {
        let place = BlockLocation { position: p, lod_index: l as u8 };
        assert forall|i: int| 0 <= i < ops.len() implies (#[trigger] ops[i]).place() != place by {
            if i != l {
                assert(i as u8 != l as u8);
            }
        }
        prepared_transaction::operations_leave_other_keys(
            before.data.lods,
            ops,
            t.expectations,
            ops.len() as int,
            place,
        );
    }
}

/// After a committed edit, every level shows the edited voxel: if the coordinates
/// of the voxel are multiples of `2^l`, level `l` has the value at its place, as
/// far as the depth of the blocks holds it, if that is the same at all levels on
/// the way.
pub proof fn committed_edits_show_at_every_level(
    s: SharedModel,
    value: u64,
    pos: Vector3i,
    channel_index: usize,
    made: Seq<BufferModel>,
    before: SharedModel,
    failed: Option<SharedVoxelDataTransactionReservation>,
    removed: Seq<RemovedModel>,
    after: SharedModel,
    spent: TransactionModel,
    l: int,
    w: Vector3i,
    depth: ChannelDepth,
)
    requires
        s.data.wf(),
        before.data.wf(),
        channel_index < MAX_CHANNELS,
        before.data.lods.len() == s.data.lods.len(),
        voxel_edit::edit_made(s.data, pos, made, s.data.lods.len() as int),
        prepared_transaction::commit_outcome(
            before,
            prepared_transaction::freshly_prepared(
                s,
                voxel_edit::edit_operations(s.data, pos, channel_index as int, value, made),
                s.settings_revision,
            ),
            failed,
            Ok(removed),
            after,
            spent,
        ),
        0 <= l < s.data.lods.len(),
        pos@ == w@.times(pow2(l as nat) as int),
        forall|i: int|
            0 <= i <= l ==> (#[trigger] voxels_before(
                s.data,
                pos,
                made,
                i,
            )).channels[channel_index as int].depth == depth,
    ensures
        voxel_data_map::block_of(w) == voxel_edit::edited_position(pos, l),
        after.data.lods[l].has_voxels(voxel_data_map::block_of(w)),
        depth.truncated(level_laws::voxel_in(after.data.lods[l], w, channel_index as int))
            == depth.truncated(value),
    decreases l,
{
    let c = channel_index as int;
    let d = s.data;
    committed_edits_put_their_drafts_in(
        s,
        value,
        pos,
        channel_index,
        made,
        before,
        failed,
        removed,
        after,
        spent,
        l,
        pos,
    );
    let draft = voxel_edit::edit_draft(d, pos, c, value, made, l);
    assert(voxels_before(d, pos, made, l).channels[c].depth == depth);
    if l == 0 {
        lemma2_to64();
        assert(pos@ == w@.times(1));
        assert(w.x * 1 == w.x && w.y * 1 == w.y && w.z * 1 == w.z);
        assert(pos == w);
        voxel_data_map::lemma_local(pos);
        the_finest_draft_has_the_voxel_set(
            d,
            pos,
            c,
            value,
            made,
            c,
            voxel_data_map::local_of(pos),
        );
        crate::depth::truncation_is_idempotent(depth, value);
    } else {
        lemma_pow2_unfold(l as nat);
        lemma_pow2_pos((l - 1) as nat);
        let n = pow2((l - 1) as nat) as int;
        assert(w@.times(2 * n) == w@.times(2).times(n)) by (nonlinear_arith);
        level_laws::lemma_doubled_fits(w@, pos@, n);
        let u = Vector3i::from_cell(w@.times(2));
        assert(u@ == w@.times(2));
        committed_edits_show_at_every_level(
            s,
            value,
            pos,
            channel_index,
            made,
            before,
            failed,
            removed,
            after,
            spent,
            l - 1,
            u,
            depth,
        );
        committed_edits_put_their_drafts_in(
            s,
            value,
            pos,
            channel_index,
            made,
            before,
            failed,
            removed,
            after,
            spent,
            l - 1,
            pos,
        );
        place_laws::halved_voxels_lie_in_the_octant(u, w);
        drafted_levels_sample_the_level_below(
            d,
            pos,
            c,
            value,
            made,
            l,
            voxel_edit::edited_position(pos, l - 1),
            c,
            voxel_data_map::local_of(u).over(2),
        );
    }
}

/// What each kind of operation has done to its block once the transaction is
/// committed.
pub open spec fn operation_took_effect(
    op: OperationModel,
    before: Option<BlockModel>,
    after: Option<BlockModel>,
) -> bool {
    match op {
        OperationModel::SetViewersExact { final_viewers, .. } => before matches Some(b)
            && after == Some(BlockModel { viewers: final_viewers, ..b }),
        OperationModel::SetViewersExactAndClearModified { final_viewers, .. } => before matches Some(
            b,
        ) && after == Some(BlockModel { viewers: final_viewers, modified: false, ..b }),
        OperationModel::Insert { block, final_viewers, .. } => before is None && after == Some(
            BlockModel { viewers: final_viewers, ..block },
        ),
        OperationModel::Replace { block, .. } => before is Some && after == Some(block),
        OperationModel::ClearModified { .. } => before matches Some(b) && after == Some(
            BlockModel { modified: false, ..b },
        ),
        OperationModel::Remove { .. } => before is Some && after is None,
    }
}

/// After `n` operations on different keys, each of them has had its effect.
proof fn lemma_operation_takes_effect(
    before: SharedModel,
    t: TransactionModel,
    k: int,
    n: int,
)
    requires
        0 <= k < n <= t.operations.len(),
        t.wf(),
        t.lod_count == before.data.lods.len(),
        collections::first_some(
            t.expectations,
            prepared_transaction::expectation_conflicts(before.data, true),
        ) is None,
    ensures
        ({
            let after = prepared_transaction::operations_applied(
                before.data.lods,
                t.operations,
                t.expectations,
                n,
            );
            let place = t.operations[k].place();
            let l = place.lod_index as int;
            &&& after.len() == before.data.lods.len()
            &&& 0 <= l < before.data.lods.len()
            &&& operation_took_effect(
                t.operations[k],
                before.data.lods[l].blocks.get(place.position),
                after[l].blocks.get(place.position),
            )
        }),
    decreases n,
{
    let lods = before.data.lods;
    let ops = t.operations;
    let place = ops[k].place();
    let l = place.lod_index as int;
    assert forall|i: int| 0 <= i < ops.len() implies (#[trigger] ops[i]).place().lod_index
        < lods.len() by {
        assert(prepared_transaction::expects(ops[i], t.expectations[i], t.lod_count));
    }
    let s = prepared_transaction::operations_applied(lods, ops, t.expectations, n - 1);
    if k < n - 1 {
        lemma_operation_takes_effect(before, t, k, n - 1);
        assert(ops[n - 1].place() != ops[k].place());
    } else {
        assert forall|i: int| 0 <= i < k implies (#[trigger] ops[i]).place() != place by {
            assert(ops[i].place() != ops[k].place());
        }
        prepared_transaction::operations_leave_other_keys(lods, ops, t.expectations, k, place);
        let conflicts = prepared_transaction::expectation_conflicts(before.data, true);
        collections::lemma_first_some_facts(t.expectations, conflicts);
        assert(conflicts(t.expectations[k]) is None);
        assert(prepared_transaction::expects(ops[k], t.expectations[k], t.lod_count));
        assert(s[l].blocks.get(place.position) == lods[l].blocks.get(place.position));
    }
}

/// A committed transaction has done what each of its operations says: viewers are
/// set exactly, modifications are cleared, blocks are put in where there was none,
/// replaced or taken out, and nothing else about the block changes.
pub proof fn committed_operations_take_effect(
    before: SharedModel,
    t: TransactionModel,
    failed: Option<SharedVoxelDataTransactionReservation>,
    removed: Seq<RemovedModel>,
    after: SharedModel,
    spent: TransactionModel,
    k: int,
)
    requires
        t.wf(),
        prepared_transaction::prepared_for(t, before),
        prepared_transaction::commit_outcome(before, t, failed, Ok(removed), after, spent),
        0 <= k < t.operations.len(),
    ensures
        ({
            let place = t.operations[k].place();
            let l = place.lod_index as int;
            &&& 0 <= l < before.data.lods.len()
            &&& after.data.lods.len() == before.data.lods.len()
            &&& operation_took_effect(
                t.operations[k],
                before.data.lods[l].blocks.get(place.position),
                after.data.lods[l].blocks.get(place.position),
            )
        }),
{
    lemma_operation_takes_effect(before, t, k, t.operations.len() as int);
}

} // verus!
