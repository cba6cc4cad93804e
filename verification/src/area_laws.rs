//! What operations on boxes of blocks and voxels come to, block by block.

use crate::boxes;
use crate::boxes::Box3i;
use crate::collections;
use crate::level_laws;
use crate::map_areas;
use crate::math::Vector3i;
use crate::place_laws;
use crate::shared_data::SharedModel;
use crate::shared_views;
use crate::voxel_data;
use crate::voxel_data::DataModel;
use crate::voxel_data_block::BlockModel;
use crate::voxel_data_map;
use crate::voxel_data_map::MapModel;
use vstd::arithmetic::power2::pow2;
use vstd::prelude::*;

verus! {

/// `p` is a position of the box.
pub open spec fn in_box(b: Box3i, p: Vector3i) -> bool {
    &&& b.position.x <= p.x < b.position.x + b.size.x
    &&& b.position.y <= p.y < b.position.y + b.size.y
    &&& b.position.z <= p.z < b.position.z + b.size.z
}

/// Block `p` of level `l` has a voxel in a box of voxels of the finest level.
pub open spec fn meets_voxels(b: Box3i, l: nat, p: Vector3i) -> bool {
    let edge = 16 * pow2(l) as int;
    &&& p.x * edge < b.position.x + b.size.x && b.position.x < p.x * edge + edge
    &&& p.y * edge < b.position.y + b.size.y && b.position.y < p.y * edge + edge
    &&& p.z * edge < b.position.z + b.size.z && b.position.z < p.z * edge + edge
}

/// A list of the cells of a box has the positions of the box.
proof fn lemma_listed(b: Box3i, p: Vector3i)
    requires
        b.representable(),
    ensures
        b.cells().contains(p) <==> in_box(b, p),
{
    b.lemma_cells();
    if b.cells().contains(p) {
        let k = choose|k: int| 0 <= k < b.cells().len() && b.cells()[k] == p;
        assert(b.has(b.cells()[k]@));
    }
    assert(b.has(p@) ==> b.cells().contains(p));
}

/// The blocks of a box that lie in the bounds of the data.
proof fn lemma_clipped(bounds: Box3i, blocks_box: Box3i, l: nat, p: Vector3i)
    requires
        l <= boxes::MAX_STRIDE_LOD,
        !bounds.vacant(),
        blocks_box.end().fits(),
    ensures
        ({
            let b = boxes::intersection(blocks_box, boxes::lod_bounds(bounds, l));
            &&& b.representable()
            &&& b.cells().contains(p) <==> in_box(blocks_box, p) && meets_voxels(bounds, l, p)
        }),
{
    let inside = boxes::lod_bounds(bounds, l);
    boxes::lemma_lod_bounds(bounds, l);
    boxes::lemma_intersection(blocks_box, inside);
    let b = boxes::intersection(blocks_box, inside);
    lemma_listed(b, p);
    place_laws::boxes_share_the_cells_in_both(blocks_box, inside, p@);
    place_laws::boxes_touch_the_blocks_of_their_voxels(bounds, l, p@, p@);
    assert(b.has(p@) <==> in_box(b, p));
}

/// The blocks that a box of voxels touches.
pub(crate) proof fn lemma_touched(voxel_box: Box3i, p: Vector3i)
    requires
        !voxel_box.vacant(),
    ensures
        voxel_data::touched_blocks(voxel_box).representable(),
        voxel_data::touched_blocks(voxel_box).cells().contains(p) <==> meets_voxels(
            voxel_box,
            0,
            p,
        ),
{
    voxel_data::lemma_voxel_box_blocks(voxel_box);
    boxes::lemma_lod_bounds(voxel_box, 0);
    place_laws::boxes_touch_the_blocks_of_their_voxels(voxel_box, 0, p@, p@);
    lemma_listed(voxel_data::touched_blocks(voxel_box), p);
    assert(voxel_data::touched_blocks(voxel_box).has(p@) <==> in_box(
        voxel_data::touched_blocks(voxel_box),
        p,
    ));
}

/// Viewing a box adds a viewer to every block of it that is there and lies in
/// the bounds, short of the largest count, and changes nothing else. Of the
/// positions in bounds, those without a block are missing and the others found.
pub proof fn viewing_counts_a_viewer_more(
    d: DataModel,
    blocks_box: Box3i,
    l: int,
    k: int,
    p: Vector3i,
)
    requires
        d.wf(),
        0 <= l < d.lods.len(),
        0 <= k < d.lods.len(),
        !d.bounds.vacant(),
        d.bounds.end().fits(),
        blocks_box.end().fits(),
    ensures
        ({
            let cells = d.view_cells(blocks_box, l);
            let after = d.changed(l, cells, map_areas::view_change());
            let reached = in_box(blocks_box, p) && meets_voxels(d.bounds, l as nat, p);
            let m = d.lods[l];
            &&& after == (DataModel { lods: after.lods, ..d })
            &&& after.lods.len() == d.lods.len()
            &&& k != l ==> after.lods[k] == d.lods[k]
            &&& after.lods[l].revisions == m.revisions
            &&& !reached || !m.blocks.contains_key(p) ==> after.lods[l].blocks.get(p)
                == m.blocks.get(p)
            &&& reached && m.blocks.contains_key(p) ==> after.lods[l].blocks.get(p) == Some(
                BlockModel {
                    viewers: if m.blocks[p].viewers == u32::MAX {
                        u32::MAX
                    } else {
                        (m.blocks[p].viewers + 1) as u32
                    },
                    ..m.blocks[p]
                },
            )
            &&& cells.filter(|q: Vector3i| !d.has_block(q, l)).contains(p) <==> reached
                && !m.blocks.contains_key(p)
            &&& cells.filter(|q: Vector3i| d.has_block(q, l)).contains(p) <==> reached
                && m.blocks.contains_key(p)
        }),
{
    lemma_clipped(d.bounds, blocks_box, l as nat, p);
    let cells = d.view_cells(blocks_box, l);
    collections::lemma_filter_facts(cells, |q: Vector3i| !d.has_block(q, l));
    collections::lemma_filter_facts(cells, |q: Vector3i| d.has_block(q, l));
}

/// Releasing a box takes a viewer from every block of it that is there and lies
/// in the bounds; a block that had no more than one goes. Nothing else changes.
pub proof fn releasing_counts_a_viewer_less(
    d: DataModel,
    blocks_box: Box3i,
    l: int,
    k: int,
    p: Vector3i,
)
    requires
        d.wf(),
        0 <= l < d.lods.len(),
        0 <= k < d.lods.len(),
        !d.bounds.vacant(),
        d.bounds.end().fits(),
        blocks_box.end().fits(),
    ensures
        ({
            let cells = d.view_cells(blocks_box, l);
            let after = d.changed(l, cells, map_areas::unview_change());
            let reached = in_box(blocks_box, p) && meets_voxels(d.bounds, l as nat, p);
            let m = d.lods[l];
            let gone = reached && m.blocks.contains_key(p) && m.blocks[p].viewers <= 1;
            &&& after == (DataModel { lods: after.lods, ..d })
            &&& after.lods.len() == d.lods.len()
            &&& k != l ==> after.lods[k] == d.lods[k]
            &&& after.lods[l].revisions == m.revisions
            &&& !reached || !m.blocks.contains_key(p) ==> after.lods[l].blocks.get(p)
                == m.blocks.get(p)
            &&& gone ==> !after.lods[l].blocks.contains_key(p)
            &&& reached && m.blocks.contains_key(p) && !gone ==> after.lods[l].blocks.get(p)
                == Some(BlockModel { viewers: (m.blocks[p].viewers - 1) as u32, ..m.blocks[p] })
            &&& cells.filter(
                |q: Vector3i| map_areas::loses_last_viewer(m, q),
            ).contains(p) <==> gone
        }),
{
    lemma_clipped(d.bounds, blocks_box, l as nat, p);
    let cells = d.view_cells(blocks_box, l);
    let m = d.lods[l];
    collections::lemma_filter_facts(cells, |q: Vector3i| map_areas::loses_last_viewer(m, q));
}

/// What releasing hands out to be saved: every modified block that goes, with
/// the voxels that it had, and nothing else.
pub proof fn released_modifications_are_saved(
    m: MapModel,
    cells: Seq<Vector3i>,
    lod_index: u8,
    i: int,
    p: Vector3i,
)
    ensures
        ({
            let saves = map_areas::unview_saves(m, cells, lod_index);
            let after = m.changed(cells, map_areas::unview_change());
            &&& 0 <= i < saves.len() ==> {
                let s = saves[i];
                &&& s.lod_index == lod_index
                &&& cells.contains(s.position)
                &&& m.blocks.contains_key(s.position) && m.blocks[s.position].modified
                &&& !after.blocks.contains_key(s.position)
                &&& s.voxels == m.blocks[s.position].voxels
            }
            &&& m.blocks.contains_key(p) && m.blocks[p].modified && !after.blocks.contains_key(p)
                ==> exists|k: int|
                0 <= k < saves.len() && (#[trigger] saves[k]).position == p
        }),
{
    let wanted = |q: Vector3i|
        map_areas::loses_last_viewer(m, q) && map_areas::modified_at(m, q);
    let list = cells.filter(wanted);
    let saves = map_areas::unview_saves(m, cells, lod_index);
    let after = m.changed(cells, map_areas::unview_change());
    collections::lemma_filter_facts(cells, wanted);
    if 0 <= i < saves.len() {
        assert(list.contains(list[i]));
    }
    if m.blocks.contains_key(p) && m.blocks[p].modified && !after.blocks.contains_key(p) {
        assert(wanted(p) && cells.contains(p));
        assert(list.contains(p));
        let k = choose|k: int| 0 <= k < list.len() && list[k] == p;
        assert(saves[k].position == p);
    }
}

/// Unloading a box takes out the blocks of the box and leaves all others.
pub proof fn unloading_empties_the_box(m: MapModel, blocks_box: Box3i, p: Vector3i)
    requires
        blocks_box.representable(),
    ensures
        m.changed(blocks_box.cells(), map_areas::unload_change()).blocks.get(p) == if in_box(
            blocks_box,
            p,
        ) {
            None
        } else {
            m.blocks.get(p)
        },
{
    lemma_listed(blocks_box, p);
}

/// Marking an area of voxels marks every block with voxels that has one of them
/// as modified and edited, and as waiting for an update if that is wanted; nothing
/// else changes. Listed are those that did not wait before.
pub proof fn marking_marks_blocks_with_voxels(
    m: MapModel,
    voxel_box: Box3i,
    require_lod_updates: bool,
    p: Vector3i,
)
    requires
        !voxel_box.vacant(),
    ensures
        ({
            let cells = voxel_data::touched_blocks(voxel_box).cells();
            let after = m.changed(cells, map_areas::mark_change(require_lod_updates));
            let reached = meets_voxels(voxel_box, 0, p) && m.blocks.contains_key(p)
                && m.blocks[p].voxels is Some;
            &&& after.revisions == m.revisions
            &&& after.blocks.get(p) == if reached {
                Some(
                    BlockModel {
                        modified: true,
                        edited: true,
                        needs_lodding: m.blocks[p].needs_lodding || require_lod_updates,
                        ..m.blocks[p]
                    },
                )
            } else {
                m.blocks.get(p)
            }
            &&& cells.filter(|q: Vector3i| map_areas::newly_needs_lod(m, q)).contains(p)
                <==> reached && !m.blocks[p].needs_lodding
        }),
{
    lemma_touched(voxel_box, p);
    collections::lemma_filter_facts(
        voxel_data::touched_blocks(voxel_box).cells(),
        |q: Vector3i| map_areas::newly_needs_lod(m, q),
    );
}

/// The voxel of level `l` that covers voxel `pos` of the finest level.
pub open spec fn covering_voxel(pos: Vector3i, l: nat) -> Vector3i {
    let n = pow2(l) as int;
    Vector3i {
        x: (pos.x as int / n) as i32,
        y: (pos.y as int / n) as i32,
        z: (pos.z as int / n) as i32,
    }
}

/// Level `l` has voxels where voxel `pos` of the finest level lies.
pub open spec fn level_shows(d: DataModel, pos: Vector3i, l: int) -> bool {
    d.lods[l].has_voxels(voxel_data_map::block_of(covering_voxel(pos, l as nat)))
}

proof fn lemma_covering(pos: Vector3i, l: nat)
    ensures
        covering_voxel(pos, 0) == pos,
        covering_voxel(pos, l + 1) == Vector3i::from_cell(covering_voxel(pos, l)@.over(2)),
{
    level_laws::ancestors_are_parents_of_ancestors(pos, l);
    assert(covering_voxel(pos, 0) == level_laws::ancestor_of(pos, 0));
    assert(covering_voxel(pos, l) == level_laws::ancestor_of(pos, l));
    assert(covering_voxel(pos, l + 1) == level_laws::ancestor_of(pos, l + 1));
}

proof fn lemma_probe_skips(d: DataModel, pos: Vector3i, c: int, l: int, n: int)
    requires
        0 <= l <= n <= d.lods.len(),
        forall|k: int| l <= k < n ==> !#[trigger] level_shows(d, pos, k),
    ensures
        d.probed(l, covering_voxel(pos, l as nat), c) == d.probed(
            n,
            covering_voxel(pos, n as nat),
            c,
        ),
    decreases n - l,
{
    if l < n {
        lemma_covering(pos, l as nat);
        assert(!level_shows(d, pos, l));
        lemma_probe_skips(d, pos, c, l + 1, n);
    }
}

/// Reading a voxel in bounds, once anything is read, gives the value in the finest
/// level that has voxels there; while data is not streamed, only the finest level
/// counts. Where no level has voxels, the generator is asked for the voxel, or the
/// default is read.
pub proof fn the_finest_level_with_voxels_is_read(
    d: DataModel,
    pos: Vector3i,
    channel_index: usize,
    defval: u64,
    r: u64,
    l: int,
)
    requires
        d.wf(),
        0 <= l <= d.lods.len(),
        forall|k: int| 0 <= k < l ==> !#[trigger] level_shows(d, pos, k),
        d.reads(pos, channel_index, defval, r),
    ensures
        !in_box(d.bounds, pos) ==> r == defval,
        !d.streaming_enabled && !d.full_load_completed ==> r == defval,
        in_box(d.bounds, pos) && (d.streaming_enabled || (d.full_load_completed && l == 0)) && l
            < d.lods.len() && level_shows(d, pos, l) ==> r == level_laws::voxel_in(
            d.lods[l],
            covering_voxel(pos, l as nat),
            channel_index as int,
        ),
        in_box(d.bounds, pos) && (d.streaming_enabled && l == d.lods.len() || (
        !d.streaming_enabled && d.full_load_completed && l >= 1)) ==> match d.generator {
            Some(g) => g.may_generate_single(pos, channel_index, r),
            None => r == defval,
        },
{
    let c = channel_index as int;
    lemma_covering(pos, 0);
    lemma_probe_skips(d, pos, c, 0, l);
    if l >= 1 {
        assert(!level_shows(d, pos, 0));
    }
}

/// Viewing a box of shared data, where that succeeds: every block of it that is
/// there and lies in the bounds has one viewer more and one revision more; nothing
/// else changes. Of the positions in bounds, those without a block are missing and
/// the others found.
pub proof fn shared_viewing_counts_a_viewer_more(
    before: SharedModel,
    blocks_box: Box3i,
    l: int,
    listed: bool,
    scratch: bool,
    live: bool,
    after: SharedModel,
    k: int,
    p: Vector3i,
)
    requires
        before.data.wf(),
        0 <= l < before.data.lods.len(),
        0 <= k < before.data.lods.len(),
        !before.data.bounds.vacant(),
        before.data.bounds.end().fits(),
        blocks_box.end().fits(),
        shared_views::view_outcome(
            before,
            blocks_box,
            l,
            listed,
            scratch,
            live,
            Ok(()),
            after,
        ),
    ensures
        ({
            let m = before.data.lods[l];
            let now = after.data.lods[l];
            let reached = in_box(blocks_box, p) && meets_voxels(before.data.bounds, l as nat, p)
                && m.blocks.contains_key(p);
            &&& after.data.lods.len() == before.data.lods.len()
            &&& k != l ==> after.data.lods[k] == before.data.lods[k]
            &&& after.settings_revision == before.settings_revision
            &&& reached ==> m.blocks[p].viewers < u32::MAX && now.blocks.get(p) == Some(
                BlockModel { viewers: (m.blocks[p].viewers + 1) as u32, ..m.blocks[p] },
            ) && now.revision(p) == m.revision(p) + 1
            &&& !reached ==> now.blocks.get(p) == m.blocks.get(p) && now.revision(p) == m.revision(p)
            &&& shared_views::area_found(before, blocks_box, l).contains(p) <==> reached
            &&& shared_views::area_missing(before, blocks_box, l).contains(p) <==> in_box(
                blocks_box,
                p,
            ) && meets_voxels(before.data.bounds, l as nat, p) && !m.blocks.contains_key(p)
        }),
{
    lemma_shared_area(before, blocks_box, l, p);
    let b = boxes::intersection(
        blocks_box,
        boxes::lod_bounds(before.data.bounds, l as nat),
    );
    let m = before.data.lods[l];
    let f = shared_views::area_error(m, l, true);
    collections::lemma_first_some_facts(b.cells(), f);
    if b.cells().contains(p) {
        let i = choose|i: int| 0 <= i < b.cells().len() && b.cells()[i] == p;
        assert(f(b.cells()[i]) is None);
    }
}

/// The positions that a box of blocks of an existing level comes to.
proof fn lemma_shared_area(s: SharedModel, blocks_box: Box3i, l: int, p: Vector3i)
    requires
        s.data.wf(),
        0 <= l < s.data.lods.len(),
        !s.data.bounds.vacant(),
        s.data.bounds.end().fits(),
        blocks_box.end().fits(),
    ensures
        ({
            let b = boxes::intersection(blocks_box, boxes::lod_bounds(s.data.bounds, l as nat));
            let m = s.data.lods[l];
            let reached = in_box(blocks_box, p) && meets_voxels(s.data.bounds, l as nat, p);
            &&& s.view_target(blocks_box, l) == shared_views::ViewTarget::Level(b)
            &&& b.cells().contains(p) <==> reached
            &&& b.cells().filter(|q: Vector3i| m.has(q)).contains(p) <==> reached && m.has(p)
            &&& shared_views::area_found(s, blocks_box, l).contains(p) <==> reached && m.has(p)
            &&& shared_views::area_missing(s, blocks_box, l).contains(p) <==> reached && !m.has(p)
        }),
{
    lemma_clipped(s.data.bounds, blocks_box, l as nat, p);
    let b = boxes::intersection(blocks_box, boxes::lod_bounds(s.data.bounds, l as nat));
    let m = s.data.lods[l];
    let cells = b.cells();
    let present = |q: Vector3i| s.data.has_block(q, l);
    let absent = |q: Vector3i| !s.data.has_block(q, l);
    collections::lemma_filter_facts(cells, present);
    collections::lemma_filter_facts(cells, absent);
    collections::lemma_filter_facts(cells, |q: Vector3i| m.has(q));
    assert(Seq::<Vector3i>::empty() + cells.filter(absent) =~= cells.filter(absent));
}

/// Releasing a box of shared data, where that succeeds: every block of it that is
/// there and lies in the bounds loses one viewer and gets one revision more. It
/// goes if that was the last viewer, unless it is modified and cannot be saved.
/// Nothing else changes.
pub proof fn shared_releasing_counts_a_viewer_less(
    before: SharedModel,
    blocks_box: Box3i,
    l: int,
    listed: bool,
    saving: bool,
    scratch: bool,
    live: bool,
    after: SharedModel,
    k: int,
    p: Vector3i,
)
    requires
        before.data.wf(),
        0 <= l < before.data.lods.len(),
        0 <= k < before.data.lods.len(),
        !before.data.bounds.vacant(),
        before.data.bounds.end().fits(),
        blocks_box.end().fits(),
        shared_views::unview_outcome(
            before,
            blocks_box,
            l,
            listed,
            saving,
            scratch,
            live,
            Ok(()),
            after,
        ),
    ensures
        ({
            let m = before.data.lods[l];
            let now = after.data.lods[l];
            let reached = in_box(blocks_box, p) && meets_voxels(before.data.bounds, l as nat, p)
                && m.blocks.contains_key(p);
            let goes = m.blocks[p].viewers == 1 && (saving || !m.blocks[p].modified);
            &&& after.data.lods.len() == before.data.lods.len()
            &&& k != l ==> after.data.lods[k] == before.data.lods[k]
            &&& after.settings_revision == before.settings_revision
            &&& reached ==> m.blocks[p].viewers > 0 && now.revision(p) == m.revision(p) + 1
            &&& reached && goes ==> !now.blocks.contains_key(p)
            &&& reached && !goes ==> now.blocks.get(p) == Some(
                BlockModel { viewers: (m.blocks[p].viewers - 1) as u32, ..m.blocks[p] },
            )
            &&& !reached ==> now.blocks.get(p) == m.blocks.get(p) && now.revision(p) == m.revision(p)
        }),
{
    lemma_shared_area(before, blocks_box, l, p);
    let b = boxes::intersection(
        blocks_box,
        boxes::lod_bounds(before.data.bounds, l as nat),
    );
    let m = before.data.lods[l];
    let f = shared_views::area_error(m, l, false);
    collections::lemma_first_some_facts(b.cells(), f);
    if b.cells().contains(p) {
        let i = choose|i: int| 0 <= i < b.cells().len() && b.cells()[i] == p;
        assert(f(b.cells()[i]) is None);
    }
}

/// What releasing shared blocks hands out: the positions whose block goes, and of
/// the modified ones among them the voxels and the revision that they had. No
/// modified block goes without being handed out.
pub proof fn shared_released_modifications_are_saved(
    before: SharedModel,
    blocks_box: Box3i,
    l: int,
    listed: bool,
    saving: bool,
    scratch: bool,
    live: bool,
    after: SharedModel,
    i: int,
    p: Vector3i,
)
    requires
        before.data.wf(),
        0 <= l < before.data.lods.len(),
        !before.data.bounds.vacant(),
        before.data.bounds.end().fits(),
        blocks_box.end().fits(),
        shared_views::unview_outcome(
            before,
            blocks_box,
            l,
            listed,
            saving,
            scratch,
            live,
            Ok(()),
            after,
        ),
    ensures
        ({
            let m = before.data.lods[l];
            let now = after.data.lods[l];
            let saves = shared_views::area_saves(before, blocks_box, l);
            let gone = m.blocks.contains_key(p) && !now.blocks.contains_key(p);
            &&& shared_views::area_removed(before, blocks_box, l, saving).contains(p) <==> gone
            &&& 0 <= i < saves.len() && saving ==> {
                let s = saves[i];
                &&& s.lod_index == l
                &&& m.blocks.contains_key(s.position) && m.blocks[s.position].modified
                &&& s.voxels == m.blocks[s.position].voxels
                &&& s.block_revision == m.revision(s.position)
                &&& !now.blocks.contains_key(s.position)
            }
            &&& gone && m.blocks[p].modified ==> saving && exists|k: int|
                0 <= k < saves.len() && (#[trigger] saves[k]).position == p
        }),
{
    let m = before.data.lods[l];
    let now = after.data.lods[l];
    let found = shared_views::area_found(before, blocks_box, l);
    let goes = |q: Vector3i| shared_views::release_removes(m, saving, q);
    let kept = |q: Vector3i| shared_views::release_saves(m, q);
    let save = |q: Vector3i| shared_views::revisioned_save(m, l, q);
    collections::lemma_filter_facts(found, goes);
    collections::lemma_filter_facts(found, kept);
    let list = found.filter(kept);
    let saves = shared_views::area_saves(before, blocks_box, l);
    assert(saves =~= list.map_values(save));
    lemma_shared_area(before, blocks_box, l, p);
    shared_releasing_counts_a_viewer_less(
        before,
        blocks_box,
        l,
        listed,
        saving,
        scratch,
        live,
        after,
        l,
        p,
    );
    assert(shared_views::area_removed(before, blocks_box, l, saving) == found.filter(goes));
    assert(found.filter(goes).contains(p) <==> found.contains(p) && goes(p));
    if 0 <= i < saves.len() && saving {
        let q = list[i];
        assert(list.contains(q));
        assert(saves[i] == save(q));
        lemma_shared_area(before, blocks_box, l, q);
        shared_releasing_counts_a_viewer_less(
            before,
            blocks_box,
            l,
            listed,
            saving,
            scratch,
            live,
            after,
            l,
            q,
        );
    }
    if m.blocks.contains_key(p) && !now.blocks.contains_key(p) && m.blocks[p].modified {
        assert(kept(p) && found.contains(p));
        assert(list.contains(p));
        let k = choose|k: int| 0 <= k < list.len() && list[k] == p;
        assert(saves[k].position == p);
    }
}

/// All positions of a box count as missing where the bounds cannot be counted in
/// blocks of the level; at a level that does not exist, those whose block meets the
/// bounds do, no block is looked at, and none is found. A box that has no last
/// corner has no positions.
pub proof fn blocks_out_of_reach_are_missing(
    d: DataModel,
    s: SharedModel,
    blocks_box: Box3i,
    l: int,
    p: Vector3i,
)
    requires
        s.data == d,
        0 <= l,
        !d.bounds.vacant(),
    ensures
        ({
            let counted = l <= 26 && d.bounds.position.x + d.bounds.size.x <= i32::MAX
                && d.bounds.position.y + d.bounds.size.y <= i32::MAX && d.bounds.position.z
                + d.bounds.size.z <= i32::MAX;
            let listed = blocks_box.end().fits() && in_box(blocks_box, p);
            let absent = l >= d.lods.len() && listed && meets_voxels(d.bounds, l as nat, p);
            &&& d.unreachable_cells(blocks_box, l).contains(p) <==> listed && !counted
            &&& d.absent_level_cells(blocks_box, l).contains(p) <==> counted && absent
            &&& l >= d.lods.len() ==> d.view_cells(blocks_box, l).len() == 0
            &&& l >= d.lods.len() ==> shared_views::area_found(s, blocks_box, l).len() == 0
            &&& l >= d.lods.len() ==> (shared_views::area_missing(s, blocks_box, l).contains(p)
                <==> listed && !counted || counted && absent)
        }),
{
    let counted = boxes::lod_bounds_exist(d.bounds, l);
    assert(counted <==> l <= 26 && d.bounds.end().fits());
    if blocks_box.end().fits() {
        lemma_listed(blocks_box, p);
        if counted {
            lemma_clipped(d.bounds, blocks_box, l as nat, p);
        }
    }
    if l >= d.lods.len() {
        let present = |q: Vector3i| d.has_block(q, l);
        let none = Seq::<Vector3i>::empty();
        collections::lemma_filter_empty(present);
        collections::lemma_filter_empty(|q: Vector3i| !d.has_block(q, l));
        let unseen = s.view_target(blocks_box, l).unseen_cells();
        assert(shared_views::area_missing(s, blocks_box, l) =~= unseen + none);
        assert(unseen + none =~= unseen);
        assert(shared_views::area_found(s, blocks_box, l) =~= none);
    }
}

} // verus!
