//! Changes that are prepared first and made later: what was prepared for data
//! that has changed since is refused, and what is made is what was prepared.

use crate::boxes;
use crate::buffer_model::BufferModel;
use crate::math::Vector3i;
use crate::mutation_error::SharedVoxelDataMutationError;
use crate::place_laws;
use crate::revision::VoxelDataKeyRevision;
use crate::shared_data::SharedModel;
use crate::shared_edits;
use crate::shared_edits::EditStart;
use crate::shared_lods;
use crate::shared_lods::LodChangeModel;
use crate::shared_marks;
use crate::shared_marks::PreparedBlockMutation;
use crate::voxel_data_block::BlockModel;
use crate::voxel_data_lods;
use crate::voxel_data_map;
use crate::voxel_data_map::MapModel;
use vstd::prelude::*;

verus! {

/// The key of block `p` is as it was when its revision was noted: a block is
/// there if one was, and the number is the same.
pub open spec fn unchanged_since(m: MapModel, p: Vector3i, noted: VoxelDataKeyRevision) -> bool {
    match noted {
        VoxelDataKeyRevision::Present(n) => m.blocks.contains_key(p) && m.revision(p) == n,
        VoxelDataKeyRevision::Tombstone(n) => !m.blocks.contains_key(p) && m.revision(p) == n,
    }
}

/// A prepared change can be made: its block is as it was, and one that is to be
/// taken as saved is still modified.
pub open spec fn still_due(s: SharedModel, c: PreparedBlockMutation, mark: bool) -> bool {
    let m = s.data.lods[c.lod_index as int];
    unchanged_since(m, c.position, c.expected_revision) && (mark || m.blocks.contains_key(
        c.position,
    ) && m.blocks[c.position].modified)
}

/// What a change is prepared for: the block as it is, the revision after the one
/// that its key has, and the voxels of the finest level that it covers.
pub proof fn changes_are_prepared_for_the_block_as_it_is(
    m: MapModel,
    l: int,
    p: Vector3i,
    waits: bool,
    block: BlockModel,
)
    requires
        0 <= l <= usize::MAX,
        m.revision(p) < u64::MAX,
        boxes::block_bounds_exist(boxes::single(p), l as nat),
    ensures
        ({
            let c = shared_marks::prepared_from(m, l, p, waits);
            let d = shared_lods::lod_change(m, l, p, block);
            let first = voxel_data_lods::block_origin(p, l as nat);
            let edge = 16 * vstd::arithmetic::power2::pow2(l as nat) as int;
            &&& c.position == p && c.lod_index == l && c.set_needs_lodding == waits
            &&& unchanged_since(m, p, c.expected_revision)
            &&& c.next_revision == m.revision(p) + 1
            &&& c.bounds.min_pos@ == first
            &&& c.bounds.max_pos.x == first.x + edge && c.bounds.max_pos.y == first.y + edge
                && c.bounds.max_pos.z == first.z + edge
            &&& d.position == p && d.lod_index == l && d.block == block
            &&& unchanged_since(m, p, d.expected_revision)
            &&& d.next_revision == m.revision(p) + 1
            &&& d.bounds == c.bounds
        }),
{
    place_laws::blocks_begin_at_their_first_voxel(p, l as nat);
}

proof fn lemma_due(s: SharedModel, c: PreparedBlockMutation, mark: bool)
    ensures
        shared_marks::conflict_of(s, mark)(c) is None <==> still_due(s, c, mark),
{
}

/// Prepared marks, or the opposite, are made only where the data takes changes
/// and every block is as it was; where there is room, they are made then. What
/// is refused changes nothing.
pub proof fn outdated_marks_are_refused(
    before: SharedModel,
    changes: Seq<PreparedBlockMutation>,
    mark: bool,
    short: Option<usize>,
    r: Result<(), SharedVoxelDataMutationError>,
    after: SharedModel,
)
    requires
        before.data.lods.len() <= usize::MAX,
        shared_marks::changes_fit(before, changes),
        shared_marks::changes_outcome(before, changes, mark, short, r, after),
    ensures
        r is Err ==> after == before,
        r is Ok ==> !before.closed && forall|k: int|
            0 <= k < changes.len() ==> still_due(before, #[trigger] changes[k], mark),
        !before.closed && short is None && (forall|k: int|
            0 <= k < changes.len() ==> still_due(before, #[trigger] changes[k], mark)) ==> r is Ok,
        before.closed ==> r == Err::<(), _>(SharedVoxelDataMutationError::MutationAdmissionClosed),
{
    let conflict = shared_marks::conflict_of(before, mark);
    let level = shared_marks::level_of();
    let n = before.data.lods.len() as int;
    if r is Ok {
        assert forall|k: int| 0 <= k < changes.len() implies still_due(
            before,
            #[trigger] changes[k],
            mark,
        ) by {
            assert(before.has_lod(changes[k].lod_index as int));
            shared_edits::lemma_not_refused(changes, level, conflict, short, n, k);
            lemma_due(before, changes[k], mark);
        }
    }
    if forall|k: int| 0 <= k < changes.len() ==> still_due(before, #[trigger] changes[k], mark) {
        assert forall|k: int| 0 <= k < changes.len() implies conflict(
            #[trigger] changes[k],
        ) is None by {
            assert(still_due(before, changes[k], mark));
            lemma_due(before, changes[k], mark);
        }
        shared_edits::lemma_refused_for_room(changes, level, conflict, short, n);
    }
}

/// No two changes are of the same block of a level.
pub open spec fn each_block_once(changes: Seq<PreparedBlockMutation>) -> bool {
    forall|i: int, j: int|
        0 <= i < changes.len() && 0 <= j < changes.len() && i != j ==> !(
        (#[trigger] changes[i]).lod_index == (#[trigger] changes[j]).lod_index
            && changes[i].position == changes[j].position)
}

proof fn lemma_made(
    lods: Seq<MapModel>,
    changes: Seq<PreparedBlockMutation>,
    mark: bool,
    n: int,
    l: int,
    p: Vector3i,
)
    requires
        0 <= n <= changes.len(),
        each_block_once(changes),
        forall|k: int| 0 <= k < changes.len() ==> (#[trigger] changes[k]).lod_index < lods.len(),
        0 <= l < lods.len(),
    ensures
        ({
            let now = shared_marks::changes_applied(lods, changes, mark, n);
            &&& now.len() == lods.len()
            &&& forall|k: int|
                0 <= k < n && (#[trigger] changes[k]).lod_index == l && changes[k].position == p
                    && lods[l].blocks.contains_key(p) ==> now[l].blocks.contains_key(p) && now[l].revision(p)
                    == changes[k].next_revision && now[l].blocks[p] == if mark {
                    shared_marks::mark_applied(lods[l].blocks[p], changes[k])
                } else {
                    BlockModel { modified: false, ..lods[l].blocks[p] }
                }
            &&& (forall|k: int|
                0 <= k < n ==> (#[trigger] changes[k]).lod_index != l || changes[k].position != p)
                ==> now[l].blocks.get(p) == lods[l].blocks.get(p) && now[l].revision(p)
                == lods[l].revision(p)
        }),
    decreases n,
{
    if n > 0 {
        lemma_made(lods, changes, mark, n - 1, l, p);
        let c = changes[n - 1];
        if c.lod_index == l && c.position == p {
            assert forall|k: int| 0 <= k < n - 1 implies (#[trigger] changes[k]).lod_index != l
                || changes[k].position != p by {
                assert(changes[k].lod_index != c.lod_index || changes[k].position != c.position);
            }
            let below = shared_marks::changes_applied(lods, changes, mark, n - 1);
            assert(below[l].blocks.get(p) == lods[l].blocks.get(p));
        }
    }
}

/// Marks that are made mark each of their blocks as modified and edited, and as
/// waiting for an update if it waited before or the change says so; the opposite
/// leaves each block unmodified and otherwise as it was. Each key gets the
/// revision that was prepared for it. All else stays.
pub proof fn prepared_marks_change_their_blocks(
    before: SharedModel,
    changes: Seq<PreparedBlockMutation>,
    mark: bool,
    short: Option<usize>,
    after: SharedModel,
    k: int,
    l: int,
    q: Vector3i,
)
    requires
        before.data.lods.len() <= usize::MAX,
        shared_marks::changes_fit(before, changes),
        each_block_once(changes),
        shared_marks::changes_outcome(before, changes, mark, short, Ok(()), after),
        0 <= k < changes.len(),
        0 <= l < before.data.lods.len(),
    ensures
        ({
            let c = changes[k];
            let m = before.data.lods[c.lod_index as int];
            let now = after.data.lods[c.lod_index as int];
            let b = m.blocks[c.position];
            let a = now.blocks[c.position];
            &&& m.blocks.contains_key(c.position) && now.blocks.contains_key(c.position)
            &&& a.modified == mark
            &&& a.edited == (mark || b.edited)
            &&& a.needs_lodding == (b.needs_lodding || mark && c.set_needs_lodding)
            &&& a.voxels == b.voxels && a.viewers == b.viewers && a.lod_index == b.lod_index
            &&& now.revision(c.position) == c.next_revision
            &&& after.data.lods.len() == before.data.lods.len()
            &&& after.settings_revision == before.settings_revision
            &&& (forall|i: int|
                0 <= i < changes.len() ==> (#[trigger] changes[i]).lod_index != l
                    || changes[i].position != q) ==> after.data.lods[l].blocks.get(q)
                == before.data.lods[l].blocks.get(q) && after.data.lods[l].revision(q)
                == before.data.lods[l].revision(q)
        }),
{
    outdated_marks_are_refused(before, changes, mark, short, Ok(()), after);
    let c = changes[k];
    assert(before.has_lod(c.lod_index as int) && c.expected_revision is Present);
    assert(still_due(before, c, mark));
    assert forall|i: int| 0 <= i < changes.len() implies (#[trigger] changes[i]).lod_index
        < before.data.lods.len() by {
        assert(before.has_lod(changes[i].lod_index as int));
    }
    let n = changes.len() as int;
    lemma_made(before.data.lods, changes, mark, n, c.lod_index as int, c.position);
    lemma_made(before.data.lods, changes, mark, n, l, q);
}

/// New contents of coarser levels are put in only where the data takes changes,
/// the settings are those they were made for, and every block is as it was;
/// where there is room, they are put in then. What is refused changes nothing.
pub proof fn outdated_updates_are_refused(
    before: SharedModel,
    settings_revision: u64,
    changes: Seq<LodChangeModel>,
    short: Option<usize>,
    r: Result<(), SharedVoxelDataMutationError>,
    after: SharedModel,
)
    requires
        before.data.lods.len() <= usize::MAX,
        forall|k: int|
            0 <= k < changes.len() ==> (#[trigger] changes[k]).lod_index < before.data.lods.len(),
        changes.len() > 0,
        updates_made(before, settings_revision, changes, short, r, after),
    ensures
        r is Err ==> after == before,
        r is Ok ==> !before.closed && before.settings_revision == settings_revision && forall|
            k: int,
        |
            0 <= k < changes.len() ==> unchanged_since(
                before.data.lods[(#[trigger] changes[k]).lod_index as int],
                changes[k].position,
                changes[k].expected_revision,
            ),
        !before.closed && short is None && before.settings_revision == settings_revision && (
        forall|k: int|
            0 <= k < changes.len() ==> unchanged_since(
                before.data.lods[(#[trigger] changes[k]).lod_index as int],
                changes[k].position,
                changes[k].expected_revision,
            )) ==> r is Ok,
{
    let conflict = shared_lods::lod_conflict(before);
    let level = shared_lods::lod_level();
    let n = before.data.lods.len() as int;
    if r is Ok {
        assert forall|k: int| 0 <= k < changes.len() implies unchanged_since(
            before.data.lods[(#[trigger] changes[k]).lod_index as int],
            changes[k].position,
            changes[k].expected_revision,
        ) by {
            shared_edits::lemma_not_refused(changes, level, conflict, short, n, k);
        }
    }
    if forall|k: int|
        0 <= k < changes.len() ==> unchanged_since(
            before.data.lods[(#[trigger] changes[k]).lod_index as int],
            changes[k].position,
            changes[k].expected_revision,
        ) {
        assert forall|k: int| 0 <= k < changes.len() implies conflict(
            #[trigger] changes[k],
        ) is None by {
            assert(changes[k].lod_index < before.data.lods.len());
        }
        shared_edits::lemma_refused_for_room(changes, level, conflict, short, n);
    }
}

/// What putting in new contents of coarser levels comes to.
pub open spec fn updates_made(
    before: SharedModel,
    settings_revision: u64,
    changes: Seq<LodChangeModel>,
    short: Option<usize>,
    r: Result<(), SharedVoxelDataMutationError>,
    after: SharedModel,
) -> bool {
    shared_edits::change_outcome(
        before,
        shared_lods::lod_refusal(before, settings_revision, changes, short),
        true,
        before.with_lods(
            shared_lods::lod_changes_applied(before.data.lods, changes, changes.len() as int),
        ),
        (),
        r,
        after,
    )
}

proof fn lemma_put_in(
    lods: Seq<MapModel>,
    changes: Seq<LodChangeModel>,
    n: int,
    l: int,
    p: Vector3i,
)
    requires
        0 <= n <= changes.len(),
        forall|k: int| 0 <= k < changes.len() ==> (#[trigger] changes[k]).lod_index < lods.len(),
        0 <= l < lods.len(),
    ensures
        ({
            let now = shared_lods::lod_changes_applied(lods, changes, n);
            &&& now.len() == lods.len()
            &&& forall|k: int|
                #![trigger changes[k]]
                0 <= k < n && changes[k].lod_index == l && changes[k].position == p && (forall|
                    i: int,
                |
                    k < i < n ==> (#[trigger] changes[i]).lod_index != l || changes[i].position
                        != p) ==> now[l].blocks.contains_key(p) && now[l].blocks[p]
                    == changes[k].block && now[l].revision(p) == changes[k].next_revision
            &&& (forall|k: int|
                0 <= k < n ==> (#[trigger] changes[k]).lod_index != l || changes[k].position != p)
                ==> now[l].blocks.get(p) == lods[l].blocks.get(p) && now[l].revision(p)
                == lods[l].revision(p)
        }),
    decreases n,
{
    if n > 0 {
        lemma_put_in(lods, changes, n - 1, l, p);
        let c = changes[n - 1];
        let now = shared_lods::lod_changes_applied(lods, changes, n);
        assert forall|k: int|
            #![trigger changes[k]]
            0 <= k < n && changes[k].lod_index == l && changes[k].position == p && (forall|i: int|
                k < i < n ==> (#[trigger] changes[i]).lod_index != l || changes[i].position
                    != p) implies now[l].blocks.contains_key(p) && now[l].blocks[p]
            == changes[k].block && now[l].revision(p) == changes[k].next_revision by {
            if k < n - 1 {
                assert(changes[n - 1].lod_index != l || changes[n - 1].position != p);
                assert(forall|i: int|
                    k < i < n - 1 ==> (#[trigger] changes[i]).lod_index != l || changes[i].position
                        != p);
            }
        }
    }
}

/// Contents that are put in are in their blocks afterwards, each key has the
/// revision that was prepared for it, and all else stays.
pub proof fn prepared_updates_are_put_in(
    before: SharedModel,
    settings_revision: u64,
    changes: Seq<LodChangeModel>,
    short: Option<usize>,
    after: SharedModel,
    k: int,
    l: int,
    q: Vector3i,
)
    requires
        forall|i: int|
            0 <= i < changes.len() ==> (#[trigger] changes[i]).lod_index < before.data.lods.len(),
        forall|i: int|
            k < i < changes.len() ==> (#[trigger] changes[i]).lod_index != changes[k].lod_index
                || changes[i].position != changes[k].position,
        updates_made(before, settings_revision, changes, short, Ok(()), after),
        0 <= k < changes.len(),
        0 <= l < before.data.lods.len(),
    ensures
        ({
            let c = changes[k];
            let now = after.data.lods[c.lod_index as int];
            &&& now.blocks.contains_key(c.position) && now.blocks[c.position] == c.block
            &&& now.revision(c.position) == c.next_revision
            &&& after.data.lods.len() == before.data.lods.len()
            &&& after.settings_revision == before.settings_revision
            &&& (forall|i: int|
                0 <= i < changes.len() ==> (#[trigger] changes[i]).lod_index != l
                    || changes[i].position != q) ==> after.data.lods[l].blocks.get(q)
                == before.data.lods[l].blocks.get(q) && after.data.lods[l].revision(q)
                == before.data.lods[l].revision(q)
        }),
{
    let c = changes[k];
    let n = changes.len() as int;
    lemma_put_in(before.data.lods, changes, n, c.lod_index as int, c.position);
    lemma_put_in(before.data.lods, changes, n, l, q);
}

/// A voxel that was prepared to be set is set only where the data takes changes,
/// the settings and the key are as they were noted, the key has a revision left,
/// and there are voxels to set it in; in all these cases it is set. An edit also
/// needs the voxels of the block to have positions.
pub proof fn outdated_voxels_are_refused(
    s: SharedModel,
    start: EditStart,
    prepared: Option<BufferModel>,
    pos: Vector3i,
)
    ensures
        ({
            let p = voxel_data_map::block_of(pos);
            let m = s.data.lods[0];
            let fresh = !s.closed && s.settings_revision == start.settings_revision
                && unchanged_since(m, p, start.key_revision) && m.revision(p) < u64::MAX && (
            m.has_voxels(p) || prepared is Some);
            &&& shared_edits::set_refusal(s, start, prepared, pos) is None <==> fresh
            &&& shared_edits::edit_refusal(s, start, prepared, pos) is None <==> fresh
                && boxes::block_bounds_exist(boxes::single(p), 0)
        }),
{
}

/// What an edit notes when it begins is the state that it finds.
pub proof fn edits_note_what_they_find(s: SharedModel, pos: Vector3i)
    ensures
        ({
            let p = voxel_data_map::block_of(pos);
            let m = s.data.lods[0];
            &&& shared_edits::edit_start(s, pos) matches Some(start) ==> start.settings_revision
                == s.settings_revision && unchanged_since(m, p, start.key_revision) && (
            start.needs_voxels <==> !m.has_voxels(p))
            &&& shared_edits::set_start(s, pos) matches Some(start) ==> start.settings_revision
                == s.settings_revision && unchanged_since(m, p, start.key_revision) && (
            start.needs_voxels <==> !m.has_voxels(p))
        }),
{
}

} // verus!
