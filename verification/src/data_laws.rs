//! What holds of the operations on voxel data together.

use crate::boxes;
use crate::boxes::Box3i;
use crate::buffer_laws;
use crate::buffer_model::BufferModel;
use crate::channel::{Compression, MAX_CHANNELS};
use crate::collections;
use crate::data_copy;
use crate::depth;
use crate::depth::ChannelDepth;
use crate::funcs;
use crate::generator::VoxelGenerator;
use crate::grid;
use crate::grid::Cell;
use crate::map_areas;
use crate::map_paste;
use crate::map_paste::PasteRules;
use crate::math::Vector3i;
use crate::voxel_data;
use crate::voxel_data::DataModel;
use crate::voxel_data_lods;
use crate::voxel_data_lods::PassState;
use crate::voxel_data_map;
use crate::voxel_data_map::{MapModel, BLOCK_SIZE};
use vstd::prelude::*;

verus! {

/// The depth at which the block of voxel `pos` stores channel `c` once the voxel
/// can be set.
pub open spec fn depth_at(d: DataModel, pos: Vector3i, c: int) -> ChannelDepth {
    let p = voxel_data_map::block_of(pos);
    if d.lods[0].has_voxels(p) {
        (d.lods[0].blocks[p].voxels->0).channels[c].depth
    } else {
        d.format[c]
    }
}

/// A voxel that could be set reads as its value, as far as its depth holds it,
/// unless nothing is read before everything is loaded.
pub proof fn set_voxels_are_read(
    d: DataModel,
    pos: Vector3i,
    channel_index: usize,
    value: u64,
    defval: u64,
    r: u64,
)
    requires
        d.wf(),
        channel_index < MAX_CHANNELS,
        d.can_set_voxel(pos),
        d.streaming_enabled || d.full_load_completed,
    ensures
        d.voxel_set(pos, channel_index as int, value).reads(pos, channel_index, defval, r) <==> r
            == depth_at(d, pos, channel_index as int).truncated(value),
{
    let c = channel_index as int;
    let p = voxel_data_map::block_of(pos);
    let cell = voxel_data_map::local_of(pos);
    let m = d.lods[0];
    assert(m.wf());
    voxel_data_map::lemma_local(pos);
    let fresh = voxel_data_map::block_buffer(d.format);
    voxel_data_map::lemma_block_buffer(d.format);
    let b: BufferModel = if m.has_voxels(p) {
        assert(m.blocks.contains_key(p));
        m.blocks[p].voxels->0
    } else {
        fresh
    };
    assert(b.wf());
    buffer_laws::set_voxels_are_read_back(b, c, cell, value, c, cell);
    let after = d.voxel_set(pos, c, value);
    assert(after.lods[0].has_voxels(p));
    assert(after.lods[0].blocks[p].voxels->0 == b.voxel_set(c, cell, value));
    assert(after.lods.len() == d.lods.len());
    assert(after.resident(pos, c) == Some(
        depth_at(d, pos, c).truncated(value),
    ));
}

/// Setting a voxel leaves the blocks of all other voxels and levels as they
/// are.
pub proof fn setting_a_voxel_leaves_other_blocks(
    d: DataModel,
    pos: Vector3i,
    c: int,
    value: u64,
    l: int,
    p: Vector3i,
)
    requires
        d.wf(),
        0 <= l < d.lods.len(),
        l > 0 || p != voxel_data_map::block_of(pos),
    ensures
        d.voxel_set(pos, c, value).lods[l].blocks.get(p) == d.lods[l].blocks.get(p),
{
}

/// From level `l` on, the same levels hold the same value.
pub(crate) proof fn lemma_probed_alike(a: DataModel, b: DataModel, l: int, vp: Vector3i, c: int)
    requires
        a.lods.len() == b.lods.len(),
        forall|k: int| l <= k < a.lods.len() ==> #[trigger] a.lods[k] == b.lods[k],
        l >= 0,
    ensures
        a.probed(l, vp, c) == b.probed(l, vp, c),
    decreases a.lods.len() - l,
{
    if l < a.lods.len() {
        assert(a.lods[l] == b.lods[l]);
        lemma_probed_alike(a, b, l + 1, Vector3i::from_cell(vp@.over(2)), c);
    }
}

/// Channel `c` of the block of voxel `pos`, where it has voxels, holds nothing
/// beyond its depth: dense values never do, the one value of a uniform channel
/// may.
pub open spec fn fits_depth(d: DataModel, pos: Vector3i, c: int) -> bool {
    let p = voxel_data_map::block_of(pos);
    d.lods[0].has_voxels(p) ==> {
        let ch = (d.lods[0].blocks[p].voxels->0).channels[c];
        ch.compression == Compression::Uniform ==> ch.depth.truncated(ch.defval) == ch.defval
    }
}

/// A voxel is set exactly where it lies in the bounds and its block is there, or
/// may be made because everything has been loaded. It then reads as the value,
/// if its depth holds that and anything is read at all. Other blocks stay, and
/// where the block had voxels, all other voxels read as before, provided that a
/// value which fills the whole channel is one that its depth holds. Where the
/// voxel is not set, nothing changes.
pub proof fn setting_a_voxel_changes_that_voxel(
    d: DataModel,
    pos: Vector3i,
    channel_index: usize,
    value: u64,
    set: bool,
    after: DataModel,
    other: Vector3i,
    other_channel: usize,
)
    requires
        d.wf(),
        channel_index < MAX_CHANNELS,
        other_channel < MAX_CHANNELS,
        depth_at(d, pos, channel_index as int).truncated(value) == value,
        fits_depth(d, pos, channel_index as int),
        set == d.can_set_voxel(pos),
        after == if set {
            d.voxel_set(pos, channel_index as int, value)
        } else {
            d
        },
    ensures
        set <==> d.bounds.has(pos@) && (d.has_block(voxel_data_map::block_of(pos), 0) || (
        !d.streaming_enabled && d.full_load_completed)),
        !set ==> after == d,
        set && (d.streaming_enabled || d.full_load_completed) ==> forall|defval: u64, r: u64|
            #[trigger] after.reads(pos, channel_index, defval, r) <==> r == value,
        set && d.lods[0].has_voxels(voxel_data_map::block_of(pos)) && (other != pos
            || other_channel != channel_index) ==> forall|defval: u64, r: u64|
            #[trigger] after.reads(other, other_channel, defval, r) <==> d.reads(
                other,
                other_channel,
                defval,
                r,
            ),
        forall|l: int, p: Vector3i|
            0 <= l < d.lods.len() && (l > 0 || p != voxel_data_map::block_of(pos))
                ==> #[trigger] after.lods[l].blocks.get(p) == d.lods[l].blocks.get(p),
{
    let c = channel_index as int;
    let k = other_channel as int;
    let p = voxel_data_map::block_of(pos);
    let q = voxel_data_map::block_of(other);
    let m = d.lods[0];
    assert(m.wf());
    if set && (d.streaming_enabled || d.full_load_completed) {
        assert forall|defval: u64, r: u64| #[trigger]
            after.reads(pos, channel_index, defval, r) <==> r == value by {
            set_voxels_are_read(d, pos, channel_index, value, defval, r);
        }
    }
    if set && m.has_voxels(p) && (other != pos || k != c) {
        let b = m.blocks[p].voxels->0;
        let now = after.lods[0];
        assert(m.blocks.contains_key(p));
        voxel_data_map::lemma_local(pos);
        voxel_data_map::lemma_local(other);
        let here = voxel_data_map::local_of(pos);
        let there = voxel_data_map::local_of(other);
        assert(now.blocks[p].voxels->0 == b.voxel_set(c, here, value));
        if q == p {
            buffer_laws::set_voxels_are_read_back(b, c, here, value, k, there);
            grid::lemma_cell_at_zxy(b.size, there);
            assert(b.channels[c].wf(grid::volume(b.size)));
            assert(k != c || there != here) by {
                if there == here {
                    assert(other@ == pos@);
                }
            }
            assert(b.channels[c].depth.truncated(b.value(c, there)) == b.value(c, there));
            assert(b.voxel_set(c, here, value).value(k, there) == b.value(k, there));
        }
        lemma_probed_alike(after, d, 1, Vector3i::from_cell(other@.over(2)), k);
        assert(after.resident(other, k) == d.resident(other, k));
    }
    assert forall|l: int, x: Vector3i|
        0 <= l < d.lods.len() && (l > 0 || x != p) implies #[trigger] after.lods[l].blocks.get(x)
        == d.lods[l].blocks.get(x) by {
        setting_a_voxel_leaves_other_blocks(d, pos, c, value, l, x);
    }
}

/// No position of a box is missing exactly where every block of it is there. All
/// positions that are missing lie out of bounds exactly where every block is
/// there as far as the box lies in the bounds.
pub proof fn nothing_is_missing_where_all_blocks_are(d: DataModel, blocks_box: Box3i, l: int)
    requires
        blocks_box.representable(),
        0 <= l < d.lods.len(),
    ensures
        (forall|p: Vector3i| blocks_box.has(p@) ==> #[trigger] d.lods[l].has(p)) <==>
            blocks_box.cells().filter(|p: Vector3i| !d.has_block(p, l)) == Seq::<
            Vector3i,
        >::empty(),
        ({
            let inside = boxes::lod_bounds(d.bounds, l as nat);
            let missing = blocks_box.cells().filter(|q: Vector3i| !d.has_block(q, l));
            (forall|p: Vector3i|
                blocks_box.has(p@) && inside.has(p@) ==> #[trigger] d.lods[l].has(p)) <==> forall|
                p: Vector3i,
            | #[trigger] missing.contains(p) ==> !inside.has(p@)
        }),
{
    let missing = |p: Vector3i| !d.has_block(p, l);
    let cells = blocks_box.cells();
    blocks_box.lemma_cells();
    collections::lemma_filter_facts(cells, missing);
    let left = cells.filter(missing);
    if forall|p: Vector3i| blocks_box.has(p@) ==> #[trigger] d.lods[l].has(p) {
        if left.len() > 0 {
            assert(left.contains(left[0]));
            assert(cells.contains(left[0]) && missing(left[0]));
            assert(d.lods[l].has(left[0]));
        }
        assert(left =~= Seq::empty());
    }
    if left == Seq::<Vector3i>::empty() {
        assert forall|p: Vector3i| blocks_box.has(p@) implies #[trigger] d.lods[l].has(p) by {
            assert(cells.contains(p));
            if missing(p) {
                assert(left.contains(p));
            }
        }
    }
    let inside = boxes::lod_bounds(d.bounds, l as nat);
    if forall|p: Vector3i| blocks_box.has(p@) && inside.has(p@) ==> #[trigger] d.lods[l].has(p) {
        assert forall|p: Vector3i| #[trigger] left.contains(p) implies !inside.has(p@) by {
            assert(cells.contains(p) && missing(p));
            assert(!d.lods[l].has(p));
        }
    }
    if forall|p: Vector3i| #[trigger] left.contains(p) ==> !inside.has(p@) {
        assert forall|p: Vector3i| blocks_box.has(p@) && inside.has(p@) implies
            #[trigger] d.lods[l].has(p) by {
            assert(cells.contains(p));
            if missing(p) {
                assert(left.contains(p));
            }
        }
    }
}

/// Viewing blocks that already have viewers, and then releasing them, leaves the
/// data as it was, short of the largest count.
pub proof fn releasing_undoes_viewing(d: DataModel, l: int, cells: Seq<Vector3i>)
    requires
        d.wf(),
        0 <= l < d.lods.len(),
        forall|p: Vector3i| #[trigger]
            d.lods[l].has(p) && cells.contains(p) ==> 1 <= d.lods[l].blocks[p].viewers < u32::MAX,
    ensures
        d.changed(l, cells, map_areas::view_change()).changed(
            l,
            cells,
            map_areas::unview_change(),
        ) == d,
{
    let m = d.lods[l];
    let viewed = m.changed(cells, map_areas::view_change());
    let back = viewed.changed(cells, map_areas::unview_change());
    assert forall|p: Vector3i| back.blocks.contains_key(p) == m.blocks.contains_key(p) by {
        assert(m.has(p) == m.blocks.contains_key(p));
        assert(viewed.blocks.get(p) == if cells.contains(p) {
            map_areas::view_change()(p, m.blocks.get(p))
        } else {
            m.blocks.get(p)
        });
    }
    assert forall|p: Vector3i| back.blocks.contains_key(p) implies back.blocks[p]
        == m.blocks[p] by {
        assert(m.has(p));
        assert(viewed.blocks.get(p) == if cells.contains(p) {
            map_areas::view_change()(p, m.blocks.get(p))
        } else {
            m.blocks.get(p)
        });
    }
    assert(back.blocks =~= m.blocks);
    assert(d.changed(l, cells, map_areas::view_change()).lods[l] == viewed);
    assert(d.changed(l, cells, map_areas::view_change()).changed(
        l,
        cells,
        map_areas::unview_change(),
    ).lods =~= d.lods);
}

/// Releasing blocks just after viewing them, in a box inside the bounds: a block
/// that had viewers before is what it was; one that had none goes and is listed
/// in ZXY order, with its voxels to be saved exactly where it was modified.
/// Positions without a block are listed as missing. All other blocks stay.
pub proof fn releasing_viewed_blocks_drops_the_unwatched(
    d: DataModel,
    blocks_box: Box3i,
    lod_index: usize,
    p: Vector3i,
)
    requires
        d.wf(),
        lod_index < d.lods.len(),
        d.bounds.end().fits(),
        blocks_box.end().fits(),
        forall|q: Vector3i| #[trigger]
            blocks_box.has(q@) ==> boxes::lod_bounds(d.bounds, lod_index as nat).has(q@),
        forall|q: Vector3i| #[trigger]
            d.lods[lod_index as int].has(q) ==> d.lods[lod_index as int].blocks[q].viewers
                < u32::MAX,
    ensures
        ({
            let l = lod_index as int;
            let before = d.lods[l];
            let viewed = d.changed(l, d.view_cells(blocks_box, l), map_areas::view_change());
            let cells = viewed.view_cells(blocks_box, l);
            let after = viewed.changed(l, cells, map_areas::unview_change());
            let removed = cells.filter(
                |q: Vector3i| map_areas::loses_last_viewer(viewed.lods[l], q),
            );
            let missing = viewed.unreachable_cells(blocks_box, l) + viewed.absent_level_cells(
                blocks_box,
                l,
            ) + cells.filter(|q: Vector3i| !viewed.has_block(q, l));
            let saves = map_areas::unview_saves(viewed.lods[l], cells, lod_index as u8);
            &&& blocks_box.has(p@) && before.has(p) && before.blocks[p].viewers > 0
                ==> after.lods[l].blocks.get(p) == before.blocks.get(p)
            &&& blocks_box.has(p@) && before.has(p) && before.blocks[p].viewers == 0
                ==> !after.lods[l].has(p)
            &&& !blocks_box.has(p@) ==> after.lods[l].blocks.get(p) == before.blocks.get(p)
            &&& forall|k: int|
                0 <= k < d.lods.len() && k != l ==> #[trigger] after.lods[k] == d.lods[k]
            &&& removed == blocks_box.cells().filter(
                |q: Vector3i| before.has(q) && before.blocks[q].viewers == 0,
            )
            &&& missing == blocks_box.cells().filter(|q: Vector3i| !before.has(q))
            &&& saves == blocks_box.cells().filter(
                |q: Vector3i|
                    before.has(q) && before.blocks[q].viewers == 0 && before.blocks[q].modified,
            ).map_values(|q: Vector3i| map_areas::save_of(before, q, lod_index as u8))
        }),
{
    let l = lod_index as int;
    let m = d.lods[l];
    let viewed = d.changed(l, d.view_cells(blocks_box, l), map_areas::view_change());
    let v = viewed.lods[l];
    let cells = blocks_box.cells();
    lemma_box_inside_bounds(d.bounds, lod_index as nat, blocks_box);
    blocks_box.lemma_cells();
    assert(d.view_cells(blocks_box, l) == cells);
    assert(viewed.view_cells(blocks_box, l) == cells);
    let after = viewed.changed(l, cells, map_areas::unview_change());
    assert forall|q: Vector3i| cells.contains(q) == #[trigger] blocks_box.has(q@) by {
        if cells.contains(q) {
            let i = choose|i: int| 0 <= i < cells.len() && cells[i] == q;
            assert(blocks_box.has(cells[i]@));
        }
    }
    assert(cells.contains(p) == blocks_box.has(p@));
    assert(v.blocks.get(p) == if cells.contains(p) {
        map_areas::view_change()(p, m.blocks.get(p))
    } else {
        m.blocks.get(p)
    });
    assert(after.lods[l] == v.changed(cells, map_areas::unview_change()));
    let gone = |q: Vector3i| map_areas::loses_last_viewer(v, q);
    let unwatched = |q: Vector3i| m.has(q) && m.blocks[q].viewers == 0;
    let gone_modified = |q: Vector3i|
        map_areas::loses_last_viewer(v, q) && map_areas::modified_at(v, q);
    let unwatched_modified = |q: Vector3i|
        m.has(q) && m.blocks[q].viewers == 0 && m.blocks[q].modified;
    let absent_now = |q: Vector3i| !viewed.has_block(q, l);
    let absent = |q: Vector3i| !m.has(q);
    assert forall|i: int| 0 <= i < cells.len() implies gone(#[trigger] cells[i]) == unwatched(
        cells[i],
    ) && gone_modified(cells[i]) == unwatched_modified(cells[i]) && absent_now(cells[i])
        == absent(cells[i]) by {
        let q = cells[i];
        assert(cells.contains(q));
        assert(v.blocks.get(q) == map_areas::view_change()(q, m.blocks.get(q)));
    }
    collections::lemma_filter_alike(cells, gone, unwatched);
    collections::lemma_filter_alike(cells, gone_modified, unwatched_modified);
    collections::lemma_filter_alike(cells, absent_now, absent);
    collections::lemma_add_empty::<Vector3i>();
    assert(Seq::<Vector3i>::empty() + Seq::<Vector3i>::empty() + cells.filter(absent_now)
        =~= cells.filter(absent));
    let listed = cells.filter(unwatched_modified);
    collections::lemma_filter_facts(cells, unwatched_modified);
    let saved_now = |q: Vector3i| map_areas::save_of(v, q, lod_index as u8);
    let saved = |q: Vector3i| map_areas::save_of(m, q, lod_index as u8);
    assert forall|i: int| 0 <= i < listed.len() implies saved_now(#[trigger] listed[i]) == saved(
        listed[i],
    ) by {
        let q = listed[i];
        assert(listed.contains(q));
        assert(cells.contains(q) && unwatched_modified(q));
        assert(v.blocks.get(q) == map_areas::view_change()(q, m.blocks.get(q)));
    }
    assert(listed.map_values(saved_now) =~= listed.map_values(saved));
}

/// The cells of a box inside the bounds are those that it has in common with
/// them.
proof fn lemma_box_inside_bounds(bounds: Box3i, lod: nat, blocks_box: Box3i)
    requires
        lod <= boxes::MAX_STRIDE_LOD,
        blocks_box.end().fits(),
        forall|q: Vector3i| #[trigger]
            blocks_box.has(q@) ==> boxes::lod_bounds(bounds, lod).has(q@),
    ensures
        boxes::intersection(blocks_box, boxes::lod_bounds(bounds, lod)).cells()
            == blocks_box.cells(),
{
    let inside = boxes::lod_bounds(bounds, lod);
    boxes::lemma_lod_bounds(bounds, lod);
    boxes::lemma_intersection(blocks_box, inside);
    let common = boxes::intersection(blocks_box, inside);
    if blocks_box.vacant() {
        assert(common.vacant());
    } else {
        let first = blocks_box.position;
        let last = Vector3i::from_cell(blocks_box.end().minus(Cell::splat(1)));
        assert(last@ == blocks_box.end().minus(Cell::splat(1)));
        assert(blocks_box.has(first@));
        assert(blocks_box.has(last@));
        assert(blocks_box.position@.max(inside.position@) == blocks_box.position@);
        assert(blocks_box.end().min(inside.end()) == blocks_box.end());
        assert(blocks_box.end().minus(blocks_box.position@) == blocks_box.size@);
        assert(common == blocks_box);
    }
}

/// Changing the number of levels keeps every level that stays; adding levels and
/// dropping them again changes nothing.
pub proof fn resizing_keeps_levels(d: DataModel, n: int)
    requires
        d.wf(),
        n >= 1,
    ensures
        forall|l: int|
            0 <= l < n && l < d.lods.len() ==> #[trigger] d.resized(n).lods[l] == d.lods[l],
        d.resized(d.lods.len() as int) == d,
        n >= d.lods.len() ==> d.resized(n).resized(d.lods.len() as int) == d,
{
    assert(d.resized(d.lods.len() as int).lods =~= d.lods);
    if n >= d.lods.len() {
        assert(d.resized(n).resized(d.lods.len() as int).lods =~= d.lods);
    }
}

/// Unloaded blocks are gone; all others stay.
pub proof fn unloaded_blocks_are_gone(m: MapModel, cells: Seq<Vector3i>, p: Vector3i)
    ensures
        m.changed(cells, map_areas::unload_change()).has(p) <==> m.has(p) && !cells.contains(p),
{
}

/// Marking an area a second time makes no difference, and no block newly waits
/// for an update of the coarser levels.
pub proof fn marking_twice_is_marking_once(
    m: MapModel,
    cells: Seq<Vector3i>,
    require_lod_updates: bool,
)
    ensures
        ({
            let f = map_areas::mark_change(require_lod_updates);
            let once = m.changed(cells, f);
            &&& once.changed(cells, f) == once
            &&& require_lod_updates ==> forall|p: Vector3i|
                cells.contains(p) ==> !#[trigger] map_areas::newly_needs_lod(once, p)
        }),
{
    let f = map_areas::mark_change(require_lod_updates);
    let once = m.changed(cells, f);
    assert(once.changed(cells, f).blocks =~= once.blocks);
}

/// Once everything modified has been taken, nothing is modified, and taking it
/// again changes nothing.
pub proof fn taken_modifications_are_gone(m: MapModel, p: Vector3i)
    ensures
        !map_areas::modified_at(voxel_data::cleaned(m), p),
        voxel_data::cleaned(voxel_data::cleaned(m)) == voxel_data::cleaned(m),
{
    assert(voxel_data::cleaned(voxel_data::cleaned(m)).blocks =~= voxel_data::cleaned(m).blocks);
}

/// The voxels that a paste finds in block `p`, or makes there.
pub open spec fn voxels_at(m: MapModel, p: Vector3i) -> BufferModel {
    if m.has_voxels(p) {
        m.blocks[p].voxels->0
    } else {
        voxel_data_map::block_buffer(m.format)
    }
}

/// A buffer stays well-formed when another one is pasted into it, and keeps its
/// extent and depths.
pub(crate) proof fn lemma_pasted_wf(
    before: BufferModel,
    src: BufferModel,
    offset: Cell,
    rules: PasteRules,
    mask: u32,
)
    requires
        before.wf(),
    ensures
        ({
            let after = map_paste::pasted_buffer(before, src, offset, rules, mask);
            &&& after.wf()
            &&& after.size == before.size
            &&& forall|i: int|
                0 <= i < MAX_CHANNELS ==> (#[trigger] after.channels[i]).depth
                    == before.channels[i].depth
        }),
{
    let after = map_paste::pasted_buffer(before, src, offset, rules, mask);
    let volume = grid::volume(before.size);
    assert forall|i: int| 0 <= i < MAX_CHANNELS implies #[trigger] after.channels[i].wf(volume)
        && after.channels[i].depth == before.channels[i].depth by {
        let depth = before.channels[i].depth;
        assert(before.channels[i].wf(volume));
        assert forall|v: u64| depth.truncated(#[trigger] depth.truncated(v)) == depth.truncated(
            v,
        ) by {
            depth::truncation_is_idempotent(depth, v);
        }
        grid::lemma_volume_sign(before.size);
    }
}

/// Once a buffer has been pasted, each of its voxels in a selected channel is
/// where it was put, as far as the depth of its block holds it, unless a mask
/// has kept what was there. Where no block has voxels and none are made,
/// nothing changes.
pub proof fn pasted_voxels_are_read_back(
    d: DataModel,
    min_pos: Vector3i,
    src: BufferModel,
    rules: PasteRules,
    mask: u32,
    create: bool,
    i: int,
    c: Cell,
)
    requires
        d.wf(),
        src.wf(),
        min_pos@.plus(src.size).fits(),
        0 <= i < MAX_CHANNELS,
        map_paste::in_channels(mask, i),
        c.in_grid(src.size),
    ensures
        ({
            let v = Vector3i::from_cell(min_pos@.plus(c));
            let p = voxel_data_map::block_of(v);
            let cell = voxel_data_map::local_of(v);
            let before = voxels_at(d.lods[0], p);
            let offset = min_pos@.minus(p@.times(BLOCK_SIZE as int));
            let after = map_paste::pasted_map(d.lods[0], min_pos@, src, rules, mask, create);
            if create || d.lods[0].has_voxels(p) {
                &&& after.has_voxels(p)
                &&& (after.blocks[p].voxels->0).value(i, cell)
                    == before.channels[i].depth.truncated(
                    if map_paste::paste_writes(before, src, offset, rules, i, cell) {
                        src.value(i, c)
                    } else {
                        before.value(i, cell)
                    },
                )
            } else {
                after.blocks.get(p) == d.lods[0].blocks.get(p)
            }
        }),
{
    let m = d.lods[0];
    let v = Vector3i::from_cell(min_pos@.plus(c));
    let p = voxel_data_map::block_of(v);
    let cell = voxel_data_map::local_of(v);
    let before = voxels_at(m, p);
    let offset = min_pos@.minus(p@.times(BLOCK_SIZE as int));
    assert(m.wf());
    assert(v@ == min_pos@.plus(c));
    voxel_data_map::lemma_local(v);
    voxel_data_map::lemma_block_buffer(m.format);
    if m.has_voxels(p) {
        assert(m.blocks.contains_key(p));
    }
    assert(before.wf() && before.size == Cell::splat(BLOCK_SIZE as int));
    assert(before.channels[i].wf(grid::volume(before.size)));
    grid::lemma_cell_at_zxy(before.size, cell);
    depth::truncation_is_idempotent(before.channels[i].depth, before.channels[i].defval);
    let (lo, hi) = funcs::fill_extent(before.size, offset, offset.plus(src.size));
    assert(cell.minus(offset) == c);
    assert(cell.within(lo, hi));
    assert(map_paste::paste_touches(min_pos@, src.size, p));
}

/// What has been pasted with all blocks made, a copy of the same place gives
/// back, as far as the format holds it.
pub proof fn copies_give_back_what_was_pasted(
    d: DataModel,
    min_pos: Vector3i,
    src: BufferModel,
    mask: u32,
    dst: BufferModel,
    generate_missing: bool,
    copied: BufferModel,
    i: int,
    c: Cell,
)
    requires
        d.wf(),
        src.wf(),
        dst.wf(),
        dst.size == src.size,
        min_pos@.plus(src.size).fits(),
        data_copy::copy_depths_agree(d, data_copy::copy_cells(min_pos, src.size), mask),
        ({
            let rules = PasteRules { src_mask: None, dst_mask: None };
            let after = map_paste::pasted_map(d.lods[0], min_pos@, src, rules, mask, true);
            data_copy::copy_outcome(
                d.with_lod(0, after),
                dst,
                min_pos,
                mask,
                generate_missing,
                copied,
            )
        }),
        0 <= i < MAX_CHANNELS,
        map_paste::in_channels(mask, i),
        c.in_grid(src.size),
    ensures
        d.format[i].truncated(copied.value(i, c)) == d.format[i].truncated(src.value(i, c)),
{
    let rules = PasteRules { src_mask: None, dst_mask: None };
    let m = d.lods[0];
    let after = map_paste::pasted_map(m, min_pos@, src, rules, mask, true);
    let now = d.with_lod(0, after);
    let cells = data_copy::copy_cells(min_pos, src.size);
    assert(m.wf());
    voxel_data_map::lemma_block_buffer(m.format);
    assert forall|p: Vector3i| #[trigger] after.blocks.contains_key(p) implies after.blocks[p].wf()
        && voxel_data_map::block_fits(after.blocks[p]) by {
        if map_paste::paste_touches(min_pos@, src.size, p) {
            let offset = min_pos@.minus(p@.times(BLOCK_SIZE as int));
            if m.has_voxels(p) {
                assert(m.blocks.contains_key(p));
            }
            lemma_pasted_wf(voxels_at(m, p), src, offset, rules, mask);
        } else {
            assert(m.blocks.contains_key(p));
        }
    }
    assert forall|l: int| 0 <= l < now.lods.len() implies (#[trigger] now.lods[l]).wf()
        && now.lods[l].lod_index == l && now.lods[l].format == now.format by {
        assert(d.lods[l].wf());
    }
    assert forall|p: Vector3i, k: int|
        cells.contains(p) && after.has_voxels(p) && 0 <= k < MAX_CHANNELS
            && map_paste::in_channels(mask, k) implies (
    #[trigger] after.blocks[p].voxels->0.channels[k]).depth == d.format[k] by {
        if map_paste::paste_touches(min_pos@, src.size, p) {
            let offset = min_pos@.minus(p@.times(BLOCK_SIZE as int));
            if m.has_voxels(p) {
                assert(m.blocks.contains_key(p));
                assert(m.blocks[p].voxels->0.channels[k].depth == d.format[k]);
            }
            lemma_pasted_wf(voxels_at(m, p), src, offset, rules, mask);
        } else {
            assert(m.blocks[p].voxels->0.channels[k].depth == d.format[k]);
        }
    }
    data_copy::copied_voxels_come_from_their_blocks(
        now,
        dst,
        min_pos,
        mask,
        generate_missing,
        copied,
        i,
        c,
    );
    let v = Vector3i::from_cell(min_pos@.plus(c));
    let p = voxel_data_map::block_of(v);
    pasted_voxels_are_read_back(d, min_pos, src, rules, mask, true, i, c);
    let before = voxels_at(m, p);
    let area = Box3i { position: min_pos, size: Vector3i::from_cell(src.size) };
    let blocks = voxel_data::touched_blocks(area);
    assert(v@ == min_pos@.plus(c));
    voxel_data::lemma_voxel_box_blocks(area);
    blocks.lemma_cells();
    assert(blocks.has(p@));
    assert(cells.contains(p));
    if m.has_voxels(p) {
        assert(m.blocks[p].voxels->0.channels[i].depth == d.format[i]);
    }
    depth::truncation_is_idempotent(d.format[i], src.value(i, c));
}

/// Voxel `o` of the octant that block `p` of level `d - 1` takes of its parent is
/// a sample of the block: its voxel `2 * o`, as far as the depth of the parent
/// holds it.
pub open spec fn octant_samples(
    lods: Seq<MapModel>,
    d: int,
    p: Vector3i,
    c: int,
    o: Cell,
) -> bool {
    let q = voxel_data_lods::parent_of(p);
    let parent = lods[d].blocks[q].voxels->0;
    let child = lods[d - 1].blocks[p].voxels->0;
    let depth = parent.channels[c].depth;
    &&& lods[d].has_voxels(q)
    &&& lods[d - 1].has_voxels(p)
    &&& depth.truncated(parent.value(c, voxel_data_lods::octant_of(p).plus(o)))
        == depth.truncated(child.value(c, o.times(2)))
}

/// The maps of all levels are well-formed.
pub(crate) open spec fn lods_wf(lods: Seq<MapModel>) -> bool {
    forall|l: int| 0 <= l < lods.len() ==> (#[trigger] lods[l]).wf()
}

/// Level `l` has the same blocks with the same voxels.
pub(crate) open spec fn same_voxels(a: Seq<MapModel>, b: Seq<MapModel>, l: int) -> bool {
    forall|q: Vector3i|
        #![trigger b[l].blocks.contains_key(q)]
        #![trigger b[l].blocks[q]]
        b[l].blocks.contains_key(q) == a[l].blocks.contains_key(q) && (a[l].blocks.contains_key(q)
            ==> b[l].blocks[q].voxels == a[l].blocks[q].voxels)
}

/// New voxels for a parent, where it needs some, are well-formed and have the
/// extent of a block.
pub(crate) open spec fn made_fits(
    lods: Seq<MapModel>,
    d: int,
    streaming: bool,
    p: Vector3i,
    made: Option<BufferModel>,
) -> bool {
    voxel_data_lods::carry_makes(lods, d, streaming, p) ==> (made matches Some(b) && b.wf()
        && b.size == Cell::splat(BLOCK_SIZE as int))
}

/// Sampling a block writes its octant and nothing else.
proof fn lemma_octant_extent(src_size: Cell, dst_size: Cell, p: Vector3i)
    requires
        src_size == Cell::splat(BLOCK_SIZE as int),
        dst_size == Cell::splat(BLOCK_SIZE as int),
    ensures
        ({
            let at = voxel_data_lods::octant_of(p);
            let end = at.plus(Cell::splat(BLOCK_SIZE / 2));
            let extent = crate::buffer_model::downscale_extent(
                src_size,
                dst_size,
                Cell::zero(),
                src_size,
                at,
            );
            &&& extent == (Cell::zero(), at, end)
            &&& funcs::fill_extent(dst_size, extent.1, extent.2) == (at, end)
        }),
{
    voxel_data_lods::lemma_octant(p);
}

/// Different children of one parent have different octants.
proof fn lemma_octants_apart(p: Vector3i, q: Vector3i, o: Cell)
    requires
        p != q,
        voxel_data_lods::parent_of(p) == voxel_data_lods::parent_of(q),
        o.in_grid(Cell::splat(BLOCK_SIZE / 2)),
    ensures
        !voxel_data_lods::octant_of(q).plus(o).within(
            voxel_data_lods::octant_of(p),
            voxel_data_lods::octant_of(p).plus(Cell::splat(BLOCK_SIZE / 2)),
        ),
{
    voxel_data_lods::lemma_octant(p);
    voxel_data_lods::lemma_octant(q);
    let x = voxel_data_lods::parent_of(p)@;
    let a = voxel_data_lods::octant_of(p);
    let b = voxel_data_lods::octant_of(q);
    assert(a.x == (p.x - x.x * 2) * 8 && a.y == (p.y - x.y * 2) * 8 && a.z == (p.z - x.z * 2) * 8);
    assert(b.x == (q.x - x.x * 2) * 8 && b.y == (q.y - x.y * 2) * 8 && b.z == (q.z - x.z * 2) * 8);
    assert(p.x != q.x || p.y != q.y || p.z != q.z);
}

/// Sampling block `p` into its parent fills its octant with every second voxel of
/// the block, in each direction, as far as the depth of the parent holds them.
/// The octants of other blocks keep their voxels in the same sense.
pub proof fn samples_fill_one_octant(
    parent: BufferModel,
    child: BufferModel,
    p: Vector3i,
    q: Vector3i,
    c: int,
    o: Cell,
)
    requires
        parent.wf(),
        child.wf(),
        parent.size == Cell::splat(BLOCK_SIZE as int),
        child.size == Cell::splat(BLOCK_SIZE as int),
        0 <= c < MAX_CHANNELS,
        o.in_grid(Cell::splat(BLOCK_SIZE / 2)),
    ensures
        ({
            let at = voxel_data_lods::octant_of(p);
            let other = voxel_data_lods::octant_of(q);
            let after = parent.downscaled_from(child, Cell::zero(), child.size, at);
            let depth = parent.channels[c].depth;
            &&& after.wf()
            &&& after.size == parent.size
            &&& after.channels[c].depth == depth
            &&& depth.truncated(after.value(c, at.plus(o))) == depth.truncated(
                child.value(c, o.times(2)),
            )
            &&& p != q && voxel_data_lods::parent_of(p) == voxel_data_lods::parent_of(q)
                ==> depth.truncated(after.value(c, other.plus(o))) == depth.truncated(
                parent.value(c, other.plus(o)),
            )
        }),
{
    let at = voxel_data_lods::octant_of(p);
    let other = voxel_data_lods::octant_of(q);
    voxel_data_lods::lemma_octant(p);
    voxel_data_lods::lemma_octant(q);
    buffer_laws::downscaled_buffers_keep_their_shape(
        parent,
        child,
        Cell::zero(),
        child.size,
        at,
    );
    let cell = at.plus(o);
    assert(cell.in_grid(parent.size));
    buffer_laws::downscaled_voxels_are_samples(
        parent,
        child,
        Cell::zero(),
        child.size,
        at,
        c,
        cell,
    );
    lemma_octant_extent(child.size, parent.size, p);
    assert(cell.within(at, at.plus(Cell::splat(BLOCK_SIZE / 2))));
    assert(cell.minus(at).times(2) == o.times(2));
    assert(Cell::zero().plus(o.times(2)) == o.times(2));
    if p != q && voxel_data_lods::parent_of(p) == voxel_data_lods::parent_of(q) {
        lemma_octants_apart(p, q, o);
        assert(other.plus(o).in_grid(parent.size));
        buffer_laws::downscaled_voxels_are_samples(
            parent,
            child,
            Cell::zero(),
            child.size,
            at,
            c,
            other.plus(o),
        );
    }
}

/// Carrying block `p` to level `d` samples it into its octant and leaves the
/// other octants as they are.
pub(crate) proof fn lemma_carried(
    lods: Seq<MapModel>,
    d: int,
    streaming: bool,
    p: Vector3i,
    made: Option<BufferModel>,
    q: Vector3i,
    c: int,
    o: Cell,
)
    requires
        lods_wf(lods),
        1 <= d < lods.len(),
        made_fits(lods, d, streaming, p, made),
        0 <= c < MAX_CHANNELS,
        o.in_grid(Cell::splat(BLOCK_SIZE / 2)),
    ensures
        ({
            let after = voxel_data_lods::carried(lods, d, streaming, p, made);
            &&& after.len() == lods.len()
            &&& lods_wf(after)
            &&& forall|l: int| 0 <= l < lods.len() && l != d ==> same_voxels(lods, after, l)
            &&& forall|x: Vector3i| #[trigger]
                lods[d].blocks.contains_key(x) ==> after[d].blocks.contains_key(x)
            &&& voxel_data_lods::carries(lods, d, streaming, q) && q == p ==> octant_samples(
                after,
                d,
                q,
                c,
                o,
            )
            &&& octant_samples(lods, d, q, c, o) ==> octant_samples(after, d, q, c, o)
        }),
{
    let after = voxel_data_lods::carried(lods, d, streaming, p, made);
    let x = voxel_data_lods::parent_of(p);
    assert(lods[d - 1].wf());
    assert(lods[d].wf());
    if voxel_data_lods::carries(lods, d, streaming, p) {
        let base = voxel_data_lods::parent_with_voxels(lods[d], p, made).voxels->0;
        let from = lods[d - 1].blocks[p].voxels->0;
        assert(lods[d - 1].blocks.contains_key(p));
        assert(base.wf() && base.size == Cell::splat(BLOCK_SIZE as int)) by {
            if lods[d].has_voxels(x) {
                assert(lods[d].blocks.contains_key(x));
            }
        }
        samples_fill_one_octant(base, from, p, q, c, o);
    }
    assert forall|l: int| 0 <= l < after.len() implies (#[trigger] after[l]).wf() by {
        assert(lods[l].wf());
        assert forall|y: Vector3i| #[trigger] after[l].blocks.contains_key(y) implies
            after[l].blocks[y].wf() && voxel_data_map::block_fits(after[l].blocks[y]) by {
            if lods[l].blocks.contains_key(y) {
                assert(lods[l].blocks[y].wf());
            }
        }
    }
}

/// What a pass to level `d` leaves: well-formed maps, all other levels with the
/// same voxels, and every block that it carried sampled into its octant.
pub(crate) proof fn lemma_pass(
    start: PassState,
    d: int,
    streaming: bool,
    format: Seq<ChannelDepth>,
    generator: Option<&dyn VoxelGenerator>,
    work: Seq<Vector3i>,
    made: Seq<Option<BufferModel>>,
    n: int,
    k: int,
    c: int,
    o: Cell,
)
    requires
        lods_wf(start.lods),
        format.len() == MAX_CHANNELS,
        1 <= d < start.lods.len(),
        0 <= n <= work.len(),
        0 <= k < work.len(),
        voxel_data_lods::pass_made(start, d, streaming, format, generator, work, made, n),
        voxel_data_lods::carries(start.lods, d, streaming, work[k]),
        0 <= c < MAX_CHANNELS,
        o.in_grid(Cell::splat(BLOCK_SIZE / 2)),
    ensures
        ({
            let end = voxel_data_lods::pass_after(start, d, streaming, work, made, n);
            &&& end.lods.len() == start.lods.len()
            &&& lods_wf(end.lods)
            &&& forall|l: int|
                0 <= l < start.lods.len() && l != d ==> same_voxels(start.lods, end.lods, l)
            &&& voxel_data_lods::carries(end.lods, d, streaming, work[k])
            &&& k < n ==> octant_samples(end.lods, d, work[k], c, o)
        }),
    decreases n,
{
    if n > 0 {
        lemma_pass(start, d, streaming, format, generator, work, made, n - 1, k, c, o);
        let s = voxel_data_lods::pass_after(start, d, streaming, work, made, n - 1);
        let p = work[n - 1];
        voxel_data_map::lemma_block_buffer(format);
        assert(made_fits(s.lods, d, streaming, p, made[n - 1]));
        lemma_carried(s.lods, d, streaming, p, made[n - 1], work[k], c, o);
        let end = voxel_data_lods::pass_after(start, d, streaming, work, made, n);
        assert forall|l: int|
            0 <= l < start.lods.len() && l != d implies same_voxels(start.lods, end.lods, l) by {
            assert(same_voxels(start.lods, s.lods, l));
            assert(same_voxels(s.lods, end.lods, l));
        }
        assert(same_voxels(s.lods, end.lods, d - 1));
        assert(end.lods[d - 1].blocks.contains_key(work[k]));
    }
}

/// The same of a pass that carries nothing in particular.
pub(crate) proof fn lemma_pass_keeps(
    start: PassState,
    d: int,
    streaming: bool,
    format: Seq<ChannelDepth>,
    generator: Option<&dyn VoxelGenerator>,
    work: Seq<Vector3i>,
    made: Seq<Option<BufferModel>>,
    n: int,
)
    requires
        lods_wf(start.lods),
        format.len() == MAX_CHANNELS,
        1 <= d < start.lods.len(),
        0 <= n <= work.len(),
        voxel_data_lods::pass_made(start, d, streaming, format, generator, work, made, n),
    ensures
        ({
            let end = voxel_data_lods::pass_after(start, d, streaming, work, made, n);
            &&& end.lods.len() == start.lods.len()
            &&& lods_wf(end.lods)
            &&& forall|l: int|
                0 <= l < start.lods.len() && l != d ==> same_voxels(start.lods, end.lods, l)
        }),
    decreases n,
{
    if n > 0 {
        lemma_pass_keeps(start, d, streaming, format, generator, work, made, n - 1);
        let s = voxel_data_lods::pass_after(start, d, streaming, work, made, n - 1);
        let p = work[n - 1];
        voxel_data_map::lemma_block_buffer(format);
        assert(made_fits(s.lods, d, streaming, p, made[n - 1]));
        lemma_carried(s.lods, d, streaming, p, made[n - 1], p, 0, Cell::zero());
        let end = voxel_data_lods::pass_after(start, d, streaming, work, made, n);
        assert forall|l: int|
            0 <= l < start.lods.len() && l != d implies same_voxels(start.lods, end.lods, l) by {
            assert(same_voxels(start.lods, s.lods, l));
            assert(same_voxels(s.lods, end.lods, l));
        }
    }
}

/// The maps stay well-formed throughout an update.
pub(crate) proof fn lemma_update_wf(
    before: DataModel,
    blocks: Seq<Vector3i>,
    generator: Option<&dyn VoxelGenerator>,
    made: Seq<Seq<Option<BufferModel>>>,
    d: int,
)
    requires
        before.wf(),
        0 <= d < before.lods.len(),
        voxel_data_lods::update_made(before, blocks, generator, made, d),
    ensures
        voxel_data_lods::update_after(before, blocks, made, d).lods.len() == before.lods.len(),
        lods_wf(voxel_data_lods::update_after(before, blocks, made, d).lods),
    decreases d,
{
    if d <= 0 {
        let after = voxel_data_lods::update_start(before, blocks).lods;
        assert forall|l: int| 0 <= l < after.len() implies (#[trigger] after[l]).wf() by {
            assert(before.lods[l].wf());
            assert forall|y: Vector3i| #[trigger] after[l].blocks.contains_key(y) implies
                after[l].blocks[y].wf() && voxel_data_map::block_fits(after[l].blocks[y]) by {
                assert(before.lods[l].blocks.contains_key(y));
            }
        }
    } else {
        lemma_update_wf(before, blocks, generator, made, d - 1);
        let s = voxel_data_lods::update_after(before, blocks, made, d - 1);
        lemma_pass_keeps(
            PassState { next: Seq::empty(), ..s },
            d,
            before.streaming_enabled,
            before.format,
            generator,
            s.next,
            made[d],
            s.next.len() as int,
        );
    }
}

/// After an update of the coarser levels, the octant that a carried block takes
/// of its parent holds every second voxel of the block, in each direction, as
/// far as the depth of the parent holds them. `n` is the last level that has been
/// updated, and `p` one of the blocks that the pass to level `d` has carried.
pub proof fn updated_parents_sample_their_children(
    before: DataModel,
    blocks: Seq<Vector3i>,
    generator: Option<&dyn VoxelGenerator>,
    made: Seq<Seq<Option<BufferModel>>>,
    n: int,
    d: int,
    p: Vector3i,
    c: int,
    o: Cell,
)
    requires
        before.wf(),
        1 <= d <= n < before.lods.len(),
        voxel_data_lods::update_made(before, blocks, generator, made, n),
        voxel_data_lods::update_after(before, blocks, made, d - 1).next.contains(p),
        voxel_data_lods::carries(
            voxel_data_lods::update_after(before, blocks, made, d - 1).lods,
            d,
            before.streaming_enabled,
            p,
        ),
        0 <= c < MAX_CHANNELS,
        o.in_grid(Cell::splat(BLOCK_SIZE / 2)),
    ensures
        octant_samples(
            voxel_data_lods::update_after(before, blocks, made, n).lods,
            d,
            p,
            c,
            o,
        ),
    decreases n,
{
    let s = voxel_data_lods::update_after(before, blocks, made, n - 1);
    let start = PassState { next: Seq::empty(), ..s };
    lemma_update_wf(before, blocks, generator, made, n - 1);
    if n == d {
        let k = choose|k: int| 0 <= k < s.next.len() && s.next[k] == p;
        lemma_pass(
            start,
            d,
            before.streaming_enabled,
            before.format,
            generator,
            s.next,
            made[d],
            s.next.len() as int,
            k,
            c,
            o,
        );
    } else {
        updated_parents_sample_their_children(
            before,
            blocks,
            generator,
            made,
            n - 1,
            d,
            p,
            c,
            o,
        );
        lemma_pass_keeps(
            start,
            n,
            before.streaming_enabled,
            before.format,
            generator,
            s.next,
            made[n],
            s.next.len() as int,
        );
        let end = voxel_data_lods::update_after(before, blocks, made, n).lods;
        assert(same_voxels(s.lods, end, d));
        assert(same_voxels(s.lods, end, d - 1));
        assert(end[d].blocks.contains_key(voxel_data_lods::parent_of(p)));
        assert(end[d - 1].blocks.contains_key(p));
    }
}

/// Every given block with voxels is sampled into its parent at the first coarser
/// level, unless data is streamed and the parent is missing.
pub proof fn given_blocks_are_sampled_into_their_parents(
    before: DataModel,
    blocks: Seq<Vector3i>,
    generator: Option<&dyn VoxelGenerator>,
    made: Seq<Seq<Option<BufferModel>>>,
    p: Vector3i,
    c: int,
    o: Cell,
)
    requires
        before.wf(),
        before.lods.len() > 1,
        voxel_data_lods::update_made(before, blocks, generator, made, before.lods.len() - 1),
        blocks.contains(p),
        before.lods[0].has_voxels(p),
        before.lods[1].has(voxel_data_lods::parent_of(p)) || !before.streaming_enabled,
        0 <= c < MAX_CHANNELS,
        o.in_grid(Cell::splat(BLOCK_SIZE / 2)),
    ensures
        octant_samples(
            voxel_data_lods::update_after(before, blocks, made, before.lods.len() - 1).lods,
            1,
            p,
            c,
            o,
        ),
{
    assert(voxel_data_lods::update_after(before, blocks, made, 0)
        == voxel_data_lods::update_start(before, blocks));
    updated_parents_sample_their_children(
        before,
        blocks,
        generator,
        made,
        before.lods.len() - 1,
        1,
        p,
        c,
        o,
    );
}

} // verus!
