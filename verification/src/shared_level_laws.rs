//! What an update of the coarser levels of shared data comes to.

use crate::buffer_model::BufferModel;
use crate::channel::MAX_CHANNELS;
use crate::data_laws;
use crate::grid::Cell;
use crate::level_laws;
use crate::math::Vector3i;
use crate::mutation_error::SharedVoxelDataMutationError;
use crate::shared_data::SharedModel;
use crate::shared_laws;
use crate::shared_lods;
use crate::shared_marks;
use crate::sorting;
use crate::voxel_data::{BlockLocation, DataModel};
use crate::voxel_data_block::BlockModel;
use crate::voxel_data_lods;
use crate::voxel_data_map::{MapModel, BLOCK_SIZE};
use vstd::prelude::*;

verus! {

/// Block `q` of level `l` holds a given block that has voxels.
pub open spec fn holds_updated_block(
    d: DataModel,
    blocks: Seq<Vector3i>,
    l: int,
    q: Vector3i,
) -> bool {
    exists|p: Vector3i|
        blocks.contains(p) && d.lods[0].has_voxels(p) && #[trigger] level_laws::ancestor_of(
            p,
            l as nat,
        ) == q
}

/// Only parents are listed as parents.
proof fn lemma_only_parents(work: Seq<Vector3i>, n: int, q: Vector3i)
    requires
        0 <= n <= work.len(),
        shared_lods::parents(work, n).contains(q),
    ensures
        exists|k: int| 0 <= k < n && #[trigger] voxel_data_lods::parent_of(work[k]) == q,
    decreases n,
{
    if n > 0 {
        let before = shared_lods::parents(work, n - 1);
        let x = voxel_data_lods::parent_of(work[n - 1]);
        if before.contains(q) {
            lemma_only_parents(work, n - 1, q);
            let k = choose|k: int|
                0 <= k < n - 1 && #[trigger] voxel_data_lods::parent_of(work[k]) == q;
            assert(voxel_data_lods::parent_of(work[k]) == q);
        } else {
            shared_marks::lemma_push_contains(before, x);
            assert(voxel_data_lods::parent_of(work[n - 1]) == q);
        }
    }
}

/// The blocks that an update changes at a level are those that hold a given block
/// with voxels.
pub proof fn updates_change_every_ancestor(
    d: DataModel,
    blocks: Seq<Vector3i>,
    l: int,
    q: Vector3i,
)
    requires
        d.wf(),
        0 <= l < d.lods.len(),
    ensures
        shared_lods::update_work(d, blocks, l).contains(q) <==> holds_updated_block(
            d,
            blocks,
            l,
            q,
        ),
    decreases l,
{
    let work = shared_lods::update_work(d, blocks, l);
    if l <= 0 {
        let set = Set::new(|p: Vector3i| blocks.contains(p) && d.lods[0].has_voxels(p));
        sorting::lemma_set_is_listed(set);
        assert(work.contains(q) <==> set.contains(q));
        level_laws::ancestors_are_parents_of_ancestors(q, 0);
        if set.contains(q) {
            assert(level_laws::ancestor_of(q, l as nat) == q);
        }
        if holds_updated_block(d, blocks, l, q) {
            let p = choose|p: Vector3i|
                blocks.contains(p) && d.lods[0].has_voxels(p) && #[trigger] level_laws::ancestor_of(
                    p,
                    l as nat,
                ) == q;
            level_laws::ancestors_are_parents_of_ancestors(p, 0);
        }
    } else {
        let below = shared_lods::update_work(d, blocks, l - 1);
        let n = below.len() as int;
        shared_lods::lemma_parents(below, n);
        if work.contains(q) {
            lemma_only_parents(below, n, q);
            let k = choose|k: int| 0 <= k < n && #[trigger] voxel_data_lods::parent_of(below[k]) == q;
            updates_change_every_ancestor(d, blocks, l - 1, below[k]);
            assert(below.contains(below[k]));
            let p = choose|p: Vector3i|
                blocks.contains(p) && d.lods[0].has_voxels(p) && #[trigger] level_laws::ancestor_of(
                    p,
                    (l - 1) as nat,
                ) == below[k];
            level_laws::ancestors_are_parents_of_ancestors(p, (l - 1) as nat);
            assert(level_laws::ancestor_of(p, l as nat) == q);
        }
        if holds_updated_block(d, blocks, l, q) {
            let p = choose|p: Vector3i|
                blocks.contains(p) && d.lods[0].has_voxels(p) && #[trigger] level_laws::ancestor_of(
                    p,
                    l as nat,
                ) == q;
            level_laws::ancestors_are_parents_of_ancestors(p, (l - 1) as nat);
            let a = level_laws::ancestor_of(p, (l - 1) as nat);
            assert(holds_updated_block(d, blocks, l - 1, a));
            updates_change_every_ancestor(d, blocks, l - 1, a);
            let k = choose|k: int| 0 <= k < below.len() && below[k] == a;
            assert(work.contains(voxel_data_lods::parent_of(below[k])));
        }
    }
}

/// After an update of the coarser levels of shared data, every given block with
/// voxels has reached all levels: at each level, the octant that its ancestor of
/// the level below takes holds every second voxel of that ancestor.
pub proof fn shared_updates_reach_every_level(
    before: SharedModel,
    blocks: Seq<Vector3i>,
    made: Seq<Map<Vector3i, BufferModel>>,
    reserved: bool,
    r: Result<Seq<BlockLocation>, SharedVoxelDataMutationError>,
    after: SharedModel,
    l: int,
    p: Vector3i,
    c: int,
    o: Cell,
)
    requires
        before.data.wf(),
        shared_lods::update_outcome(before, blocks, made, reserved, r, after),
        r is Ok,
        1 <= l < before.data.lods.len(),
        blocks.contains(p),
        before.data.lods[0].has_voxels(p),
        0 <= c < MAX_CHANNELS,
        o.in_grid(Cell::splat(BLOCK_SIZE / 2)),
    ensures
        data_laws::octant_samples(
            after.data.lods,
            l,
            level_laws::ancestor_of(p, (l - 1) as nat),
            c,
            o,
        ),
{
    let a = level_laws::ancestor_of(p, (l - 1) as nat);
    assert(holds_updated_block(before.data, blocks, l - 1, a));
    updates_change_every_ancestor(before.data, blocks, l - 1, a);
    shared_laws::shared_updates_sample_every_octant(
        before,
        blocks,
        made,
        reserved,
        r,
        after,
        l,
        a,
        c,
        o,
    );
}

/// The drafts of a level above the finest are modified; they wait for nothing,
/// except at the last level, where a block waits as it did.
proof fn lemma_drafts_are_modified(
    m: MapModel,
    below: Map<Vector3i, BlockModel>,
    work: Seq<Vector3i>,
    made: Map<Vector3i, BufferModel>,
    last: bool,
    n: int,
    q: Vector3i,
)
    requires
        0 <= n <= work.len(),
    ensures
        ({
            let drafts = shared_lods::level_drafts(m, below, work, made, last, n);
            drafts.contains_key(q) ==> {
                &&& drafts[q].modified
                &&& !last ==> !drafts[q].needs_lodding
                &&& m.has(q) ==> drafts[q].viewers == m.blocks[q].viewers && drafts[q].edited
                    == m.blocks[q].edited
                &&& last && drafts[q].needs_lodding ==> m.has(q) && m.blocks[q].needs_lodding
            }
        }),
    decreases n,
{
    if n > 0 {
        lemma_drafts_are_modified(m, below, work, made, last, n - 1, q);
    }
}

proof fn lemma_listed_locations(
    drafts: Seq<Map<Vector3i, BlockModel>>,
    n: int,
    l: int,
    q: Vector3i,
)
    requires
        0 <= n <= drafts.len(),
        n <= 256,
        0 <= l < 256,
    ensures
        shared_lods::updated_locations(drafts, n).contains(
            BlockLocation { position: q, lod_index: l as u8 },
        ) <==> l < n && drafts[l].contains_key(q),
    decreases n,
{
    if n > 0 {
        lemma_listed_locations(drafts, n - 1, l, q);
        let place = BlockLocation { position: q, lod_index: l as u8 };
        let a = shared_lods::updated_locations(drafts, n - 1);
        let list = sorting::listing(drafts[n - 1].dom());
        let f = |p: Vector3i| BlockLocation { position: p, lod_index: (n - 1) as u8 };
        let b = list.map_values(f);
        let whole = shared_lods::updated_locations(drafts, n);
        assert(whole == a + b);
        sorting::lemma_set_is_listed(drafts[n - 1].dom());
        assert(list.contains(q) <==> drafts[n - 1].contains_key(q));
        if whole.contains(place) {
            let k = choose|k: int| 0 <= k < whole.len() && whole[k] == place;
            if k < a.len() {
                assert(a[k] == place);
                assert(a.contains(place));
            } else {
                assert(b[k - a.len()] == place);
                assert(list[k - a.len()] == q);
                assert(list.contains(q));
            }
        }
        if a.contains(place) {
            let k = choose|k: int| 0 <= k < a.len() && a[k] == place;
            assert(whole[k] == place);
        }
        if l == n - 1 && list.contains(q) {
            let k = choose|k: int| 0 <= k < list.len() && list[k] == q;
            assert(b[k] == place);
            assert(whole[a.len() + k] == place);
        }
    }
}

/// After an update of the coarser levels of shared data, a block that holds a given
/// block with voxels has voxels and one revision more, above the finest level it is
/// modified, and it is listed as updated. At the finest level it only stops
/// waiting. All other blocks stay as they are and are not listed.
pub proof fn shared_updates_change_what_they_list(
    before: SharedModel,
    blocks: Seq<Vector3i>,
    made: Seq<Map<Vector3i, BufferModel>>,
    reserved: bool,
    listed: Seq<BlockLocation>,
    after: SharedModel,
    l: int,
    q: Vector3i,
)
    requires
        before.data.wf(),
        shared_lods::update_outcome(before, blocks, made, reserved, Ok(listed), after),
        0 <= l < before.data.lods.len(),
    ensures
        ({
            let m = before.data.lods[l];
            let now = after.data.lods[l];
            let changed = holds_updated_block(before.data, blocks, l, q);
            &&& after.data.lods.len() == before.data.lods.len()
            &&& listed.contains(BlockLocation { position: q, lod_index: l as u8 }) <==> changed
            &&& !changed ==> now.blocks.get(q) == m.blocks.get(q) && now.revision(q) == m.revision(q)
            &&& changed ==> {
                &&& now.has_voxels(q)
                &&& now.revision(q) == m.revision(q) + 1
                &&& l == 0 ==> now.blocks[q] == (BlockModel {
                    needs_lodding: false,
                    ..m.blocks[q]
                })
                &&& l > 0 ==> now.blocks[q].modified
                &&& l < before.data.lods.len() - 1 ==> !now.blocks[q].needs_lodding
                &&& m.has(q) ==> now.blocks[q].viewers == m.blocks[q].viewers
                    && now.blocks[q].edited == m.blocks[q].edited
            }
        }),
{
    let d = before.data;
    let n = d.lods.len() as int;
    let m = d.lods[l];
    updates_change_every_ancestor(d, blocks, l, q);
    if blocks.len() == 0 {
        if holds_updated_block(d, blocks, l, q) {
            let p = choose|p: Vector3i|
                blocks.contains(p) && d.lods[0].has_voxels(p) && #[trigger] level_laws::ancestor_of(
                    p,
                    l as nat,
                ) == q;
            assert(false);
        }
        assert(listed.len() == 0);
    } else {
        let drafts = shared_lods::all_drafts(d, blocks, made);
        assert(!shared_lods::update_stuck(d, blocks, l, q));
        assert(shared_lods::made_below(d, blocks, made, n - 1));
        assert(shared_lods::made_below(d, blocks, made, l));
        shared_laws::lemma_update_drafts(d, blocks, made, l);
        let here = shared_lods::update_drafts(d, blocks, made, l);
        assert(drafts[l] == here);
        assert(here.contains_key(q) <==> shared_lods::update_work(d, blocks, l).contains(q));
        assert(here.contains_key(q) ==> shared_laws::full_block(here[q]));
        let cells = sorting::listing(here.dom());
        sorting::lemma_set_is_listed(here.dom());
        assert(cells.contains(q) <==> here.contains_key(q));
        lemma_listed_locations(drafts, n, l, q);
        assert(after.data.lods[l] == shared_lods::with_drafts(m, here, cells));
        if l > 0 {
            let work = shared_lods::update_work(d, blocks, l - 1);
            lemma_drafts_are_modified(
                m,
                shared_lods::update_drafts(d, blocks, made, l - 1),
                work,
                made[l],
                l == n - 1,
                work.len() as int,
                q,
            );
        }
    }
}

} // verus!
