//! What is handed out to be saved, and what becomes of the blocks.

use crate::collections;
use crate::map_areas;
use crate::math::Vector3i;
use crate::voxel_data;
use crate::voxel_data::{BlockToSave, DataModel, SaveModel};
use crate::voxel_data_block::BlockModel;
use crate::voxel_data_map::MapModel;
use vstd::prelude::*;

verus! {

/// `s` holds a modified block of level `l` as it is: its position, its level and
/// all its voxels.
pub open spec fn holds_modified_block(m: MapModel, l: int, s: SaveModel) -> bool {
    &&& s.lod_index == l
    &&& m.blocks.contains_key(s.position)
    &&& m.blocks[s.position].modified
    &&& s.voxels == m.blocks[s.position].voxels
}

/// Taking all modifications of a map hands out every modified block once, with
/// the voxels that it had.
pub proof fn saves_hold_every_modified_block_once(
    m: MapModel,
    lod_index: u8,
    saves: Seq<SaveModel>,
    i: int,
    j: int,
    p: Vector3i,
)
    requires
        map_areas::saves_all(m, lod_index, saves),
    ensures
        0 <= i < saves.len() ==> holds_modified_block(m, lod_index as int, saves[i])
            && saves[i].block_revision == 0,
        0 <= i < j < saves.len() ==> saves[i].position != saves[j].position,
        m.blocks.contains_key(p) && m.blocks[p].modified ==> exists|k: int|
            0 <= k < saves.len() && (#[trigger] saves[k]).position == p,
{
    let order = choose|order: Seq<Vector3i>|
        #![trigger order.no_duplicates()]
        order.no_duplicates() && (forall|q: Vector3i| #[trigger]
            order.contains(q) <==> map_areas::modified_at(m, q)) && saves == order.map_values(
            |q: Vector3i| map_areas::save_of(m, q, lod_index),
        );
    if 0 <= i < saves.len() {
        assert(order.contains(order[i]));
        assert(saves[i] == map_areas::save_of(m, order[i], lod_index));
    }
    if m.blocks.contains_key(p) && m.blocks[p].modified {
        assert(map_areas::modified_at(m, p));
        assert(order.contains(p));
        let k = choose|k: int| 0 <= k < order.len() && order[k] == p;
        assert(saves[k].position == p);
    }
}

/// Taking all modifications hands out the modified blocks of every level, each
/// once, with the voxels that it had, finer levels first.
pub proof fn all_saves_hold_every_modified_block_once(
    d: DataModel,
    n: int,
    saves: Seq<SaveModel>,
    i: int,
    j: int,
    l: int,
    p: Vector3i,
)
    requires
        d.wf(),
        0 <= n <= d.lods.len(),
        voxel_data::saves_levels(d, n, saves),
    ensures
        0 <= i < saves.len() ==> 0 <= saves[i].lod_index < n && holds_modified_block(
            d.lods[saves[i].lod_index as int],
            saves[i].lod_index as int,
            saves[i],
        ),
        0 <= i < j < saves.len() ==> saves[i].lod_index < saves[j].lod_index || (
        saves[i].lod_index == saves[j].lod_index && saves[i].position != saves[j].position),
        0 <= l < n && d.lods[l].blocks.contains_key(p) && d.lods[l].blocks[p].modified
            ==> exists|k: int|
            0 <= k < saves.len() && (#[trigger] saves[k]).position == p && saves[k].lod_index == l,
    decreases n,
{
    if n > 0 {
        let m = d.lods[n - 1];
        let b = choose|b: Seq<SaveModel>|
            #![trigger map_areas::saves_all(m, (n - 1) as u8, b)]
            map_areas::saves_all(m, (n - 1) as u8, b) && b.len() <= saves.len() && saves
                == saves.take(saves.len() - b.len()) + b && voxel_data::saves_levels(
                d,
                n - 1,
                saves.take(saves.len() - b.len()),
            );
        let a = saves.take(saves.len() - b.len());
        let s = a.len() as int;
        all_saves_hold_every_modified_block_once(d, n - 1, a, i, j, l, p);
        saves_hold_every_modified_block_once(m, (n - 1) as u8, b, i - s, j - s, p);
        assert(forall|k: int| 0 <= k < s ==> saves[k] == a[k]);
        assert(forall|k: int| s <= k < saves.len() ==> saves[k] == b[k - s]);
        if s <= j < saves.len() {
            saves_hold_every_modified_block_once(m, (n - 1) as u8, b, j - s, j - s, p);
        }
        if 0 <= l < n && d.lods[l].blocks.contains_key(p) && d.lods[l].blocks[p].modified {
            if l < n - 1 {
                let k = choose|k: int|
                    0 <= k < a.len() && (#[trigger] a[k]).position == p && a[k].lod_index == l;
                assert(saves[k].position == p);
            } else {
                let k = choose|k: int| 0 <= k < b.len() && (#[trigger] b[k]).position == p;
                saves_hold_every_modified_block_once(m, (n - 1) as u8, b, k, k, p);
                assert(saves[k + s] == b[k]);
            }
        }
    }
}

/// A map whose modifications have been taken has the same blocks with the same
/// voxels and the same state, only that none is modified.
pub proof fn taking_modifications_keeps_the_blocks(m: MapModel, p: Vector3i)
    ensures
        ({
            let after = voxel_data::cleaned(m);
            &&& after.blocks.contains_key(p) == m.blocks.contains_key(p)
            &&& after.revisions == m.revisions
            &&& m.blocks.contains_key(p) ==> {
                &&& !after.blocks[p].modified
                &&& after.blocks[p].voxels == m.blocks[p].voxels
                &&& after.blocks[p].viewers == m.blocks[p].viewers
                &&& after.blocks[p].edited == m.blocks[p].edited
                &&& after.blocks[p].needs_lodding == m.blocks[p].needs_lodding
                &&& after.blocks[p].lod_index == m.blocks[p].lod_index
            }
        }),
{
}

/// Taking the modification of one block gives its voxels exactly if it is
/// modified. It is then no longer modified, and nothing else changes.
pub proof fn one_modification_is_taken_with_its_voxels(
    before: DataModel,
    after: DataModel,
    p: Vector3i,
    l: int,
    r: Option<BlockToSave>,
    k: int,
    q: Vector3i,
)
    requires
        0 <= l < before.lods.len(),
        voxel_data::consumed_one(before, after, p, l, r),
    ensures
        r is Some <==> before.lods[l].blocks.contains_key(p) && before.lods[l].blocks[p].modified,
        r matches Some(s) ==> s@.position == p && holds_modified_block(
            before.lods[l],
            l as u8 as int,
            s@,
        ),
        after.lods.len() == before.lods.len(),
        after == (DataModel { lods: after.lods, ..before }),
        0 <= k < before.lods.len() && (k != l || q != p) ==> after.lods[k].blocks.get(q)
            == before.lods[k].blocks.get(q),
        before.lods[l].blocks.contains_key(p) ==> after.lods[l].blocks.contains_key(p)
            && after.lods[l].blocks[p] == (BlockModel {
            modified: false,
            ..before.lods[l].blocks[p]
        }),
{
    let m = before.lods[l];
    if m.blocks.contains_key(p) && !m.blocks[p].modified {
        assert(m.blocks[p] =~= BlockModel { modified: false, ..m.blocks[p] });
    }
}

/// What unloading a list of positions hands out: exactly the modified blocks among
/// them, with the voxels that they had.
pub proof fn collected_saves_hold_modified_blocks(
    m: MapModel,
    cells: Seq<Vector3i>,
    lod_index: u8,
    saves: Seq<SaveModel>,
    i: int,
    p: Vector3i,
)
    requires
        saves == map_areas::unload_saves(m, cells, lod_index),
    ensures
        0 <= i < saves.len() ==> cells.contains(saves[i].position) && holds_modified_block(
            m,
            lod_index as int,
            saves[i],
        ),
        cells.contains(p) && m.blocks.contains_key(p) && m.blocks[p].modified ==> exists|k: int|
            0 <= k < saves.len() && (#[trigger] saves[k]).position == p,
{
    let wanted = |q: Vector3i| map_areas::modified_at(m, q);
    let list = cells.filter(wanted);
    collections::lemma_filter_facts(cells, wanted);
    if 0 <= i < saves.len() {
        assert(list.contains(list[i]));
        assert(saves[i] == map_areas::save_of(m, list[i], lod_index));
    }
    if cells.contains(p) && m.blocks.contains_key(p) && m.blocks[p].modified {
        assert(wanted(p));
        assert(list.contains(p));
        let k = choose|k: int| 0 <= k < list.len() && list[k] == p;
        assert(saves[k].position == p);
    }
}

} // verus!
