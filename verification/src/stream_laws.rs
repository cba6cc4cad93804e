//! Which blocks come into being, and which lists tell of them.

use crate::answer_laws;
use crate::area_laws;
use crate::boxes;
use crate::buffer_model::BufferModel;
use crate::channel::MAX_CHANNELS;
use crate::collections;
use crate::depth::ChannelDepth;
use crate::map_areas;
use crate::map_areas::ViewOutcome;
use crate::math::Vector3i;
use crate::mutation_error::{
    SharedVoxelDataMutationError, SharedVoxelDataTransactionReservation,
};
use crate::shared_data::SharedModel;
use crate::shared_level_laws;
use crate::shared_lods;
use crate::transaction_preview::SharedVoxelDataTransactionBlockSnapshot;
use crate::voxel_data::{BlockLocation, DataModel};
use crate::voxel_data_lods;
use crate::voxel_data_lods::PassState;
use crate::voxel_data_map;
use crate::voxel_data_map::MapModel;
use crate::voxel_edit;
use crate::voxel_edit::PreparedSharedVoxelDataEdit;
use vstd::prelude::*;

verus! {

proof fn lemma_pass_makes_no_blocks(
    start: PassState,
    d: int,
    work: Seq<Vector3i>,
    made: Seq<Option<BufferModel>>,
    n: int,
    l: int,
    q: Vector3i,
)
    requires
        1 <= d < start.lods.len(),
        0 <= l < start.lods.len(),
    ensures
        ({
            let end = voxel_data_lods::pass_after(start, d, true, work, made, n);
            end.lods.len() == start.lods.len() && (end.lods[l].blocks.contains_key(q)
                <==> start.lods[l].blocks.contains_key(q))
        }),
    decreases n,
{
    if n > 0 {
        lemma_pass_makes_no_blocks(start, d, work, made, n - 1, l, q);
        let p = work[n - 1];
        let x = voxel_data_lods::parent_of(p);
        lemma_pass_makes_no_blocks(start, d, work, made, n - 1, d, x);
    }
}

/// While data is streamed, an update of the coarser levels makes no blocks: it
/// goes on to blocks that are there, and leaves out those that are not. It never
/// takes a block away.
pub proof fn streamed_updates_make_no_blocks(
    before: DataModel,
    blocks: Seq<Vector3i>,
    made: Seq<Seq<Option<BufferModel>>>,
    d: int,
    l: int,
    q: Vector3i,
)
    requires
        before.streaming_enabled,
        0 <= d < before.lods.len(),
        0 <= l < before.lods.len(),
    ensures
        ({
            let end = voxel_data_lods::update_after(before, blocks, made, d);
            end.lods.len() == before.lods.len() && (end.lods[l].blocks.contains_key(q)
                <==> before.lods[l].blocks.contains_key(q))
        }),
    decreases d,
{
    if d > 0 {
        streamed_updates_make_no_blocks(before, blocks, made, d - 1, l, q);
        let s = voxel_data_lods::update_after(before, blocks, made, d - 1);
        lemma_pass_makes_no_blocks(
            PassState { next: Seq::empty(), ..s },
            d,
            s.next,
            made[d],
            s.next.len() as int,
            l,
            q,
        );
    }
}

/// A block of a coarser level can take the voxels of the level below: it has
/// voxels, or they may be made and have positions.
pub open spec fn can_take_voxels(d: DataModel, l: int, q: Vector3i) -> bool {
    d.lods[l].has_voxels(q) || !d.streaming_enabled && boxes::block_bounds_exist(
        boxes::single(q),
        l as nat,
    )
}

proof fn lemma_no_update_error(d: DataModel, blocks: Seq<Vector3i>, n: int)
    requires
        d.wf(),
        0 <= n < d.lods.len(),
    ensures
        shared_lods::update_error(d, blocks, n) is None <==> forall|l: int, q: Vector3i|
            1 <= l <= n && #[trigger] shared_level_laws::holds_updated_block(d, blocks, l, q)
                ==> can_take_voxels(d, l, q),
    decreases n,
{
    if n > 0 {
        lemma_no_update_error(d, blocks, n - 1);
        let work = shared_lods::update_work(d, blocks, n);
        let errors = shared_lods::destination_errors(d, n);
        collections::lemma_first_some_facts(work, errors);
        if shared_lods::update_error(d, blocks, n) is None {
            assert forall|l: int, q: Vector3i|
                1 <= l <= n && #[trigger] shared_level_laws::holds_updated_block(
                    d,
                    blocks,
                    l,
                    q,
                ) implies can_take_voxels(d, l, q) by {
                if l == n {
                    shared_level_laws::updates_change_every_ancestor(d, blocks, n, q);
                    let k = choose|k: int| 0 <= k < work.len() && work[k] == q;
                    assert(errors(work[k]) is None);
                }
            }
        }
        if forall|l: int, q: Vector3i|
            1 <= l <= n && #[trigger] shared_level_laws::holds_updated_block(d, blocks, l, q)
                ==> can_take_voxels(d, l, q) {
            assert forall|k: int| 0 <= k < work.len() implies errors(
                #[trigger] work[k],
            ) is None by {
                assert(work.contains(work[k]));
                shared_level_laws::updates_change_every_ancestor(d, blocks, n, work[k]);
                assert(shared_level_laws::holds_updated_block(d, blocks, n, work[k]));
            }
        }
    }
}

/// An update of the coarser levels of shared data goes through only where every
/// block that holds a given one has voxels, or may get new ones because nothing
/// is streamed.
pub proof fn shared_updates_need_their_blocks(
    before: SharedModel,
    blocks: Seq<Vector3i>,
    made: Seq<Map<Vector3i, BufferModel>>,
    listed: Seq<BlockLocation>,
    after: SharedModel,
    reserved: bool,
    l: int,
    q: Vector3i,
)
    requires
        before.data.wf(),
        before.data.lods.len() >= 1,
        shared_lods::update_outcome(before, blocks, made, reserved, Ok(listed), after),
        1 <= l < before.data.lods.len(),
        shared_level_laws::holds_updated_block(before.data, blocks, l, q),
    ensures
        can_take_voxels(before.data, l, q),
        before.data.streaming_enabled ==> before.data.lods[l].has_voxels(q),
{
    lemma_no_update_error(before.data, blocks, before.data.lods.len() - 1);
    assert(blocks.len() > 0) by {
        shared_level_laws::updates_change_every_ancestor(before.data, blocks, l, q);
        if blocks.len() == 0 {
            let p = choose|p: Vector3i|
                blocks.contains(p) && before.data.lods[0].has_voxels(p)
                    && #[trigger] crate::level_laws::ancestor_of(p, l as nat) == q;
            assert(blocks.contains(p));
        }
    }
}

/// Where every block that holds a given one can take voxels and change its key,
/// an update of open shared data with room for it goes through.
pub proof fn shared_updates_go_through(
    before: SharedModel,
    blocks: Seq<Vector3i>,
    made: Seq<Map<Vector3i, BufferModel>>,
    r: Result<Seq<BlockLocation>, SharedVoxelDataMutationError>,
    after: SharedModel,
)
    requires
        before.data.wf(),
        !before.closed,
        shared_lods::update_outcome(before, blocks, made, true, r, after),
        forall|l: int, q: Vector3i|
            0 <= l < before.data.lods.len() && #[trigger] shared_level_laws::holds_updated_block(
                before.data,
                blocks,
                l,
                q,
            ) ==> (l == 0 || can_take_voxels(before.data, l, q)) && boxes::block_bounds_exist(
                boxes::single(q),
                l as nat,
            ) && before.data.lods[l].revision(q) < u64::MAX,
    ensures
        r is Ok,
{
    let d = before.data;
    let n = d.lods.len() as int;
    if blocks.len() > 0 {
        assert forall|l: int, q: Vector3i| !#[trigger] shared_lods::update_stuck(d, blocks, l, q) by {
            if 0 <= l < n && shared_lods::update_work(d, blocks, l).contains(q) {
                shared_level_laws::updates_change_every_ancestor(d, blocks, l, q);
                assert(shared_level_laws::holds_updated_block(d, blocks, l, q));
            }
        }
        lemma_no_update_error(d, blocks, n - 1);
    }
}

/// Emptied data has no blocks and no revisions at any level, in the format given;
/// bounds, settings and the number of levels stay.
pub proof fn emptied_data_holds_nothing(
    d: DataModel,
    format: Seq<ChannelDepth>,
    l: int,
    p: Vector3i,
)
    requires
        0 <= l < d.lods.len() <= 255,
    ensures
        ({
            let after = d.emptied(format);
            &&& after.lods.len() == d.lods.len()
            &&& !after.lods[l].blocks.contains_key(p)
            &&& after.lods[l].revision(p) == 0
            &&& after.lods[l].lod_index == l
            &&& after.lods[l].format == format && after.format == format
            &&& after.bounds == d.bounds
            &&& after.streaming_enabled == d.streaming_enabled
            &&& after.full_load_completed == d.full_load_completed
            &&& after.generator == d.generator && after.stream == d.stream
        }),
{
}

/// An edit lists, level by level, the blocks that it puts in: those that the
/// voxel lies in and that are not there.
pub proof fn edits_list_the_blocks_they_put_in(
    d: DataModel,
    pos: Vector3i,
    n: int,
    place: BlockLocation,
)
    requires
        0 <= n <= d.lods.len() <= 255,
    ensures
        voxel_edit::edit_insertions(d, pos, n).contains(place) <==> place.lod_index < n
            && place.position == answer_laws::block_above(pos, place.lod_index as nat)
            && !d.lods[place.lod_index as int].blocks.contains_key(place.position),
    decreases n,
{
    if n > 0 {
        edits_list_the_blocks_they_put_in(d, pos, n - 1, place);
        answer_laws::edited_blocks_hold_the_voxel(pos, n - 1);
        let below = voxel_edit::edit_insertions(d, pos, n - 1);
        let here = voxel_edit::edited_location(pos, n - 1);
        let all = below.push(here);
        assert(all[below.len() as int] == here);
        assert(forall|k: int| 0 <= k < below.len() ==> #[trigger] all[k] == below[k]);
        assert(all.contains(place) <==> below.contains(place) || place == here) by {
            if below.contains(place) {
                let k = choose|k: int| 0 <= k < below.len() && below[k] == place;
                assert(all[k] == place);
            }
            if all.contains(place) && place != here {
                let k = choose|k: int| 0 <= k < all.len() && all[k] == place;
                assert(below[k] == place);
            }
        }
    }
}

/// An edit has one operation for each level, on the block that the voxel lies
/// in: it replaces one that is there and puts in a new one, without viewers,
/// where there is none.
pub proof fn edits_operate_on_every_level(
    d: DataModel,
    pos: Vector3i,
    c: int,
    value: u64,
    made: Seq<BufferModel>,
    l: int,
)
    requires
        0 <= l < d.lods.len() <= 255,
    ensures
        ({
            let ops = voxel_edit::edit_operations(d, pos, c, value, made);
            let q = answer_laws::block_above(pos, l as nat);
            let there = d.lods[l].blocks.contains_key(q);
            &&& ops.len() == d.lods.len()
            &&& ops[l].place().position == q && ops[l].place().lod_index == l
            &&& there <==> ops[l] is Replace
            &&& !there <==> ops[l] is Insert
            &&& !there ==> ops[l]->Insert_final_viewers == 0
        }),
{
    answer_laws::edited_blocks_hold_the_voxel(pos, l);
}

/// What viewing comes upon: each position is reported as missing if it has no
/// block, and otherwise as found, with a copy of the block as it is after it has
/// got its viewer. A count that is full stays full.
pub proof fn viewing_tells_what_it_finds(
    m: MapModel,
    cells: Seq<Vector3i>,
    copy_blocks: bool,
    r: ViewOutcome,
    after: MapModel,
    p: Vector3i,
    k: int,
)
    requires
        map_areas::view_blocks_outcome(m, cells, copy_blocks, r, after),
    ensures
        r.missing@.contains(p) <==> cells.contains(p) && !m.blocks.contains_key(p),
        r.found_positions@.contains(p) <==> cells.contains(p) && m.blocks.contains_key(p),
        r.found_blocks@.len() == if copy_blocks {
            r.found_positions@.len()
        } else {
            0
        },
        copy_blocks && 0 <= k < r.found_blocks@.len() ==> {
            let b = r.found_blocks@[k]@;
            let o = m.blocks[r.found_positions@[k]];
            &&& b == after.blocks[r.found_positions@[k]]
            &&& b.voxels == o.voxels && b.modified == o.modified && b.edited == o.edited
            &&& o.viewers < u32::MAX ==> b.viewers == o.viewers + 1
            &&& o.viewers == u32::MAX ==> b.viewers == u32::MAX
        },
{
    let there = |q: Vector3i| m.has(q);
    let absent = |q: Vector3i| !m.has(q);
    collections::lemma_filter_facts(cells, there);
    collections::lemma_filter_facts(cells, absent);
    let found = cells.filter(there);
    if copy_blocks && 0 <= k < r.found_blocks@.len() {
        let listed = found.map_values(|q: Vector3i| map_areas::viewed(m.blocks[q]));
        assert(map_areas::blocks_of(r.found_blocks@)[k] == listed[k]);
        assert(map_areas::blocks_of(r.found_blocks@)[k] == r.found_blocks@[k]@);
        assert(found.contains(found[k]));
    }
    assert(copy_blocks ==> map_areas::blocks_of(r.found_blocks@).len() == found.len());
    assert(map_areas::blocks_of(r.found_blocks@).len() == r.found_blocks@.len());
}

proof fn lemma_revisions_left(d: DataModel, pos: Vector3i, n: int, l: int)
    requires
        voxel_edit::first_overflow(d, pos, n) is None,
        0 <= l < n,
    ensures
        d.lods[l].revision(voxel_edit::edited_position(pos, l)) < u64::MAX,
    decreases n,
{
    if l < n - 1 {
        lemma_revisions_left(d, pos, n - 1, l);
    }
}

/// A prepared edit tells which block of the finest level it edits, the revision
/// that this block will have, and the blocks that it puts in. Its transaction is
/// of this data and these settings, has an operation for each level, and has not
/// been committed.
pub proof fn prepared_edits_tell_what_they_change(
    s: SharedModel,
    value: u64,
    pos: Vector3i,
    channel_index: usize,
    room: (bool, bool),
    made: Seq<BufferModel>,
    snapshots: Seq<SharedVoxelDataTransactionBlockSnapshot>,
    failed: Option<SharedVoxelDataTransactionReservation>,
    edit: PreparedSharedVoxelDataEdit,
    place: BlockLocation,
)
    requires
        1 <= s.data.lods.len() <= 255,
        voxel_edit::prepared_edit_outcome(
            s,
            value,
            pos,
            channel_index,
            room.0,
            room.1,
            made,
            snapshots,
            failed,
            Ok(Some(edit)),
        ),
    ensures
        ({
            let p = voxel_data_map::block_of(pos);
            let t = edit@.transaction;
            &&& channel_index < MAX_CHANNELS
            &&& area_laws::in_box(s.data.bounds, pos)
            &&& edit@.edited_block.position == p && edit@.edited_block.lod_index == 0
            &&& edit@.block_revision == s.data.lods[0].revision(p) + 1
            &&& edit@.inserted_locations.contains(place) <==> place.lod_index < s.data.lods.len()
                && place.position == answer_laws::block_above(pos, place.lod_index as nat)
                && !s.data.lods[place.lod_index as int].blocks.contains_key(place.position)
            &&& t.operations.len() == s.data.lods.len()
            &&& t.settings_revision == s.settings_revision && t.lineage == s.lineage
            &&& !t.committed
        }),
{
    let n = s.data.lods.len() as int;
    answer_laws::edits_are_refused_for_their_channel_first(s, pos, channel_index, room.0, room.1);
    edits_list_the_blocks_they_put_in(s.data, pos, n, place);
    lemma_revisions_left(s.data, pos, n, 0);
}

} // verus!
