//! What generating blocks and carrying edits to coarser levels comes to.

use crate::boxes;
use crate::boxes::Box3i;
use crate::buffer_model::BufferModel;
use crate::channel;
use crate::channel::MAX_CHANNELS;
use crate::collections;
use crate::data_laws;
use crate::depth::ChannelDepth;
use crate::generator::{SharedVoxelGenerator, VoxelGenerator};
use crate::grid::Cell;
use crate::math::Vector3i;
use crate::place_laws;
use crate::voxel_data::{BlockLocation, DataModel};
use crate::voxel_data_block::BlockModel;
use crate::voxel_data_lods;
use crate::voxel_data_lods::PassState;
use crate::voxel_data_map;
use crate::voxel_data_map::{MapModel, BLOCK_SIZE};
use vstd::arithmetic::power2::{lemma2_to64, lemma_pow2_pos, lemma_pow2_unfold, pow2};
use vstd::prelude::*;

verus! {

/// A new block has 16 voxels on each axis, the depths of the format, the default
/// of its channel in every voxel, and no metadata.
pub proof fn new_blocks_hold_defaults(format: Seq<ChannelDepth>, c: int, cell: Cell)
    requires
        format.len() == MAX_CHANNELS,
        0 <= c < MAX_CHANNELS,
    ensures
        ({
            let b = voxel_data_map::block_buffer(format);
            &&& b.size == (Cell { x: 16, y: 16, z: 16 })
            &&& b.channels[c].depth == format[c]
            &&& b.value(c, cell) == channel::default_raw(c, format[c])
            &&& b.voxel_metadata.dom().is_empty()
        }),
{
    voxel_data_map::lemma_block_buffer(format);
}

/// The place that a generator is asked for, for block `p` of a level: the first
/// voxel, at the finest level, that the block covers.
pub open spec fn first_voxel(p: Vector3i, lod: nat) -> Vector3i {
    let edge = 16 * pow2(lod) as int;
    Vector3i { x: (p.x * edge) as i32, y: (p.y * edge) as i32, z: (p.z * edge) as i32 }
}

/// New voxels of a block are what the generator makes of an empty block at the
/// first voxel that the block covers; without a generator they are the defaults.
/// Extent and depths are those of the format.
pub proof fn blocks_are_generated_at_their_place(
    generator: Option<&dyn VoxelGenerator>,
    shared: Option<SharedVoxelGenerator>,
    format: Seq<ChannelDepth>,
    p: Vector3i,
    lod: nat,
    b: BufferModel,
    c: int,
    cell: Cell,
)
    requires
        format.len() == MAX_CHANNELS,
        0 <= c < MAX_CHANNELS,
    ensures
        ({
            let blank = voxel_data_map::block_buffer(format);
            let at = first_voxel(p, lod);
            &&& voxel_data_lods::generated_by(generator, format, p, lod, b) ==> {
                &&& b.wf()
                &&& b.size == (Cell { x: 16, y: 16, z: 16 })
                &&& b.channels[c].depth == format[c]
                &&& generator matches Some(g) ==> g.may_generate(blank, at, lod as u32, b)
                &&& generator is None ==> b.value(c, cell) == channel::default_raw(c, format[c])
            }
            &&& voxel_data_lods::generated_for(shared, format, p, lod, b) ==> {
                &&& b.wf()
                &&& b.size == (Cell { x: 16, y: 16, z: 16 })
                &&& b.channels[c].depth == format[c]
                &&& shared matches Some(g) ==> g.may_generate(blank, at, lod as u32, b)
                &&& shared is None ==> b.value(c, cell) == channel::default_raw(c, format[c])
            }
        }),
{
    new_blocks_hold_defaults(format, c, cell);
    place_laws::blocks_begin_at_their_first_voxel(p, lod);
    assert(first_voxel(p, lod) == Vector3i::from_cell(voxel_data_lods::block_origin(p, lod)));
    assert(voxel_data_map::block_buffer(format).channels[c].depth == format[c]);
}

/// Generating in advance gives voxels to every block of the level that the box
/// touches, except to a block that is not there while data is streamed. New
/// voxels are generated for the place of the block. A block that had voxels, and
/// a block that the box does not touch, stays as it was; so does the state of a
/// block that gets voxels.
pub proof fn generating_in_advance_fills_the_box(
    before: DataModel,
    after: MapModel,
    voxel_box: Box3i,
    generator: Option<&dyn VoxelGenerator>,
    l: int,
    p: Vector3i,
)
    requires
        before.wf(),
        0 <= l < before.lods.len(),
        !voxel_box.vacant(),
        voxel_data_lods::level_generated(before, after, voxel_box, generator, l),
    ensures
        ({
            let m = before.lods[l];
            let edge = 16 * pow2(l as nat) as int;
            let touched = {
                &&& p.x * edge < voxel_box.end().x && voxel_box.position.x < p.x * edge + edge
                &&& p.y * edge < voxel_box.end().y && voxel_box.position.y < p.y * edge + edge
                &&& p.z * edge < voxel_box.end().z && voxel_box.position.z < p.z * edge + edge
            };
            &&& after.revisions == m.revisions && after.format == m.format
            &&& !touched || m.has_voxels(p) || (!m.has(p) && before.streaming_enabled)
                ==> after.blocks.get(p) == m.blocks.get(p)
            &&& touched && !m.has_voxels(p) && (m.has(p) || !before.streaming_enabled) ==> {
                &&& after.has_voxels(p)
                &&& voxel_data_lods::generated_by(
                    generator,
                    before.format,
                    p,
                    l as nat,
                    after.blocks[p].voxels->0,
                )
                &&& after.blocks[p].viewers == if m.has(p) { m.blocks[p].viewers } else { 0 }
                &&& after.blocks[p].modified == (m.has(p) && m.blocks[p].modified)
                &&& after.blocks[p].edited == (m.has(p) && m.blocks[p].edited)
                &&& after.blocks[p].needs_lodding == (m.has(p) && m.blocks[p].needs_lodding)
                &&& after.blocks[p].lod_index == if m.has(p) {
                    m.blocks[p].lod_index
                } else {
                    l as u8
                }
            }
        }),
{
    let m = before.lods[l];
    let area = boxes::lod_bounds(voxel_box, l as nat);
    assert(m.wf() && m.format == before.format);
    place_laws::boxes_touch_the_blocks_of_their_voxels(voxel_box, l as nat, p@, p@);
    boxes::lemma_lod_bounds(voxel_box, l as nat);
    area.lemma_cells();
    let cells = area.cells();
    if cells.contains(p) {
        let k = choose|k: int| 0 <= k < cells.len() && cells[k] == p;
        assert(area.has(cells[k]@));
    }
    assert(area.has(p@) ==> cells.contains(p));
    let made = choose|made: Map<Vector3i, BufferModel>| #[trigger]
        voxel_data_lods::made_for(
            m,
            before.streaming_enabled,
            generator,
            cells,
            l as nat,
            made,
        ) && after == m.changed(
            cells,
            voxel_data_lods::made_change(before.streaming_enabled, l as u8, made),
        );
    if cells.contains(p) && voxel_data_lods::pre_generates(m, before.streaming_enabled, p) {
        assert(voxel_data_lods::generated_by(generator, m.format, p, l as nat, made[p]));
    }
}

/// Number of blocks of the first `n` levels that have voxels in `after` and had
/// none in `before`.
pub open spec fn filled_below(before: Seq<MapModel>, after: Seq<MapModel>, n: int) -> nat
    decreases n,
{
    if n <= 0 {
        0
    } else {
        filled_below(before, after, n - 1) + Set::new(
            |p: Vector3i| after[n - 1].has_voxels(p) && !before[n - 1].has_voxels(p),
        ).len()
    }
}

/// Generating in advance counts the blocks that it gives voxels.
pub proof fn generating_in_advance_counts_filled_blocks(
    before: DataModel,
    after: Seq<MapModel>,
    voxel_box: Box3i,
    generator: Option<&dyn VoxelGenerator>,
    n: int,
)
    requires
        before.wf(),
        0 <= n <= before.lods.len(),
        forall|l: int|
            0 <= l < n ==> voxel_data_lods::level_generated(
                before,
                #[trigger] after[l],
                voxel_box,
                generator,
                l,
            ),
    ensures
        voxel_data_lods::pre_generated_below(before, voxel_box, n) == filled_below(
            before.lods,
            after,
            n,
        ),
    decreases n,
{
    if n > 0 {
        let l = n - 1;
        generating_in_advance_counts_filled_blocks(before, after, voxel_box, generator, l);
        let m = before.lods[l];
        let area = boxes::lod_bounds(voxel_box, l as nat);
        boxes::lemma_lod_bounds(voxel_box, l as nat);
        area.lemma_cells();
        let cells = area.cells();
        let wanted = |p: Vector3i| voxel_data_lods::pre_generates(m, before.streaming_enabled, p);
        let filled = Set::new(|p: Vector3i| after[l].has_voxels(p) && !m.has_voxels(p));
        assert(voxel_data_lods::level_generated(before, after[l], voxel_box, generator, l));
        let made = choose|made: Map<Vector3i, BufferModel>| #[trigger]
            voxel_data_lods::made_for(
                m,
                before.streaming_enabled,
                generator,
                cells,
                l as nat,
                made,
            ) && after[l] == m.changed(
                cells,
                voxel_data_lods::made_change(before.streaming_enabled, l as u8, made),
            );
        collections::lemma_filter_facts(cells, wanted);
        let list = cells.filter(wanted);
        assert forall|p: Vector3i| list.to_set().contains(p) == filled.contains(p) by {
            assert(list.to_set().contains(p) == list.contains(p));
            if filled.contains(p) {
                assert(cells.contains(p));
                assert(wanted(p));
            }
        }
        assert(list.to_set() =~= filled);
        assert(list.no_duplicates());
        list.unique_seq_to_set();
    }
}

/// Block `q` waits to be carried to the next coarser level.
pub open spec fn waits(m: MapModel, q: Vector3i) -> bool {
    m.has(q) && m.blocks[q].needs_lodding
}

/// The block of the level `l` levels up that holds block `p`.
pub open spec fn ancestor_of(p: Vector3i, l: nat) -> Vector3i {
    let n = pow2(l) as int;
    Vector3i { x: (p.x as int / n) as i32, y: (p.y as int / n) as i32, z: (p.z as int / n) as i32 }
}

proof fn lemma_halved(x: int, n: int)
    requires
        n > 0,
    ensures
        (x / n) / 2 == x / (2 * n),
        i32::MIN <= x <= i32::MAX ==> i32::MIN <= x / n <= i32::MAX,
{
    place_laws::lemma_floor_twice(x, n);
    vstd::arithmetic::div_mod::lemma_fundamental_div_mod(x, n);
    vstd::arithmetic::div_mod::lemma_mod_bound(x, n);
    let q = x / n;
    let r = x % n;
    assert(i32::MIN <= x <= i32::MAX ==> i32::MIN <= q <= i32::MAX) by (nonlinear_arith)
        requires
            x == n * q + r,
            0 <= r < n,
            n > 0,
    ;
}

/// The ancestor one level further up is the parent of the ancestor.
pub proof fn ancestors_are_parents_of_ancestors(p: Vector3i, l: nat)
    ensures
        ancestor_of(p, 0) == p,
        ancestor_of(p, l + 1) == voxel_data_lods::parent_of(ancestor_of(p, l)),
{
    lemma2_to64();
    lemma_pow2_pos(l);
    lemma_pow2_unfold(l + 1);
    let n = pow2(l) as int;
    lemma_halved(p.x as int, n);
    lemma_halved(p.y as int, n);
    lemma_halved(p.z as int, n);
    assert(ancestor_of(p, 0) == p) by {
        assert(p.x as int / 1 == p.x && p.y as int / 1 == p.y && p.z as int / 1 == p.z);
    }
}

/// What a pass to level `d` does to those that wait there: a block waits at the
/// end exactly if it waited at the start or is queued for the next pass. Every
/// block with voxels that is carried, and only such, has its parent waiting.
proof fn lemma_pass_queues(
    start: PassState,
    d: int,
    streaming: bool,
    work: Seq<Vector3i>,
    made: Seq<Option<BufferModel>>,
    n: int,
)
    requires
        1 <= d < start.lods.len() - 1,
        0 <= n <= work.len(),
        start.next.len() == 0,
    ensures
        ({
            let end = voxel_data_lods::pass_after(start, d, streaming, work, made, n);
            &&& end.lods.len() == start.lods.len()
            &&& forall|q: Vector3i| #[trigger]
                waits(end.lods[d], q) <==> waits(start.lods[d], q) || end.next.contains(q)
            &&& forall|q: Vector3i| #[trigger]
                start.lods[d].has(q) ==> end.lods[d].has(q)
            &&& forall|q: Vector3i| #[trigger]
                start.lods[d - 1].has_voxels(q) ==> end.lods[d - 1].has_voxels(q)
            &&& forall|k: int|
                0 <= k < n && voxel_data_lods::carries(start.lods, d, streaming, #[trigger] work[k])
                    ==> waits(end.lods[d], voxel_data_lods::parent_of(work[k]))
        }),
    decreases n,
{
    if n > 0 {
        lemma_pass_queues(start, d, streaming, work, made, n - 1);
        let s = voxel_data_lods::pass_after(start, d, streaming, work, made, n - 1);
        let end = voxel_data_lods::pass_after(start, d, streaming, work, made, n);
        let p = work[n - 1];
        let x = voxel_data_lods::parent_of(p);
        let b = voxel_data_lods::parent_with_voxels(s.lods[d], p, made[n - 1]);
        assert(s.lods[d].has(x) ==> b.needs_lodding == s.lods[d].blocks[x].needs_lodding);
        assert(!s.lods[d].has(x) ==> !b.needs_lodding);
        if end.next != s.next {
            assert(end.next == s.next.push(x));
            assert forall|q: Vector3i| end.next.contains(q) == (s.next.contains(q) || q == x) by {
                assert(end.next[s.next.len() as int] == x);
                if s.next.contains(q) {
                    let j = choose|j: int| 0 <= j < s.next.len() && s.next[j] == q;
                    assert(end.next[j] == q);
                }
                if end.next.contains(q) && q != x {
                    let j = choose|j: int| 0 <= j < end.next.len() && end.next[j] == q;
                    assert(s.next[j] == q);
                }
            }
        }
        assert forall|q: Vector3i| #[trigger]
            waits(end.lods[d], q) <==> waits(start.lods[d], q) || end.next.contains(q) by {
            assert(waits(s.lods[d], q) <==> waits(start.lods[d], q) || s.next.contains(q));
            if q == x {
                assert(waits(s.lods[d], x) <==> waits(start.lods[d], x) || s.next.contains(x));
            }
        }
        assert forall|k: int|
            0 <= k < n && voxel_data_lods::carries(
                start.lods,
                d,
                streaming,
                #[trigger] work[k],
            ) implies waits(end.lods[d], voxel_data_lods::parent_of(work[k])) by {
            let y = voxel_data_lods::parent_of(work[k]);
            if k == n - 1 {
                assert(start.lods[d - 1].has_voxels(p));
                assert(start.lods[d].has(x) ==> s.lods[d].has(x));
                assert(voxel_data_lods::carries(s.lods, d, streaming, p));
            } else {
                assert(waits(s.lods[d], y));
            }
        }
    }
}

/// In a pass to level `d` short of the last, the parent of every block that is
/// carried is queued for the pass to the next level, unless it waited already;
/// nothing else is queued.
pub proof fn carried_parents_are_queued(
    start: PassState,
    d: int,
    streaming: bool,
    work: Seq<Vector3i>,
    made: Seq<Option<BufferModel>>,
    k: int,
)
    requires
        1 <= d < start.lods.len() - 1,
        start.next.len() == 0,
        0 <= k < work.len(),
        voxel_data_lods::carries(start.lods, d, streaming, work[k]),
        !waits(start.lods[d], voxel_data_lods::parent_of(work[k])),
    ensures
        voxel_data_lods::pass_after(
            start,
            d,
            streaming,
            work,
            made,
            work.len() as int,
        ).next.contains(voxel_data_lods::parent_of(work[k])),
{
    lemma_pass_queues(start, d, streaming, work, made, work.len() as int);
    let end = voxel_data_lods::pass_after(start, d, streaming, work, made, work.len() as int);
    assert(waits(end.lods[d], voxel_data_lods::parent_of(work[k])));
}

/// A pass to level `d` leaves all levels but `d - 1` and `d` as they are.
proof fn lemma_pass_leaves_levels(
    start: PassState,
    d: int,
    streaming: bool,
    work: Seq<Vector3i>,
    made: Seq<Option<BufferModel>>,
    n: int,
    l: int,
)
    requires
        1 <= d < start.lods.len(),
        0 <= l < start.lods.len(),
        l != d,
        l != d - 1,
    ensures
        ({
            let end = voxel_data_lods::pass_after(start, d, streaming, work, made, n);
            end.lods.len() == start.lods.len() && end.lods[l] == start.lods[l]
        }),
    decreases n,
{
    if n > 0 {
        lemma_pass_leaves_levels(start, d, streaming, work, made, n - 1, l);
    }
}

/// Passes up to level `d` leave the levels above as they are.
proof fn lemma_update_leaves_levels(
    before: DataModel,
    blocks: Seq<Vector3i>,
    made: Seq<Seq<Option<BufferModel>>>,
    d: int,
    l: int,
)
    requires
        0 <= d < l < before.lods.len(),
    ensures
        ({
            let end = voxel_data_lods::update_after(before, blocks, made, d);
            end.lods.len() == before.lods.len() && end.lods[l] == before.lods[l]
        }),
    decreases d,
{
    if d > 0 {
        lemma_update_leaves_levels(before, blocks, made, d - 1, l);
        let s = voxel_data_lods::update_after(before, blocks, made, d - 1);
        lemma_pass_leaves_levels(
            PassState { next: Seq::empty(), ..s },
            d,
            before.streaming_enabled,
            s.next,
            made[d],
            s.next.len() as int,
            l,
        );
    }
}

/// No block above the finest level waits to be carried on.
pub open spec fn nothing_waits_above(d: DataModel) -> bool {
    forall|l: int, q: Vector3i|
        1 <= l < d.lods.len() ==> !(#[trigger] waits(d.lods[l], q))
}

/// Where everything can be made and nothing waits, each pass has the ancestor of
/// a given block in its work, with voxels.
proof fn lemma_ancestor_is_carried(
    before: DataModel,
    blocks: Seq<Vector3i>,
    generator: Option<&dyn VoxelGenerator>,
    made: Seq<Seq<Option<BufferModel>>>,
    p: Vector3i,
    d: int,
)
    requires
        before.wf(),
        !before.streaming_enabled,
        nothing_waits_above(before),
        0 <= d < before.lods.len(),
        voxel_data_lods::update_made(before, blocks, generator, made, d),
        blocks.contains(p),
        before.lods[0].has_voxels(p),
    ensures
        ({
            let end = voxel_data_lods::update_after(before, blocks, made, d);
            let a = ancestor_of(p, d as nat);
            &&& end.lods.len() == before.lods.len()
            &&& end.lods[d].has_voxels(a)
            &&& d < before.lods.len() - 1 ==> end.next.contains(a)
        }),
    decreases d,
{
    if d <= 0 {
        ancestors_are_parents_of_ancestors(p, 0);
    } else {
        lemma_ancestor_is_carried(before, blocks, generator, made, p, d - 1);
        ancestors_are_parents_of_ancestors(p, (d - 1) as nat);
        data_laws::lemma_update_wf(before, blocks, generator, made, d - 1);
        lemma_update_leaves_levels(before, blocks, made, d - 1, d);
        let s = voxel_data_lods::update_after(before, blocks, made, d - 1);
        let start = PassState { next: Seq::empty(), ..s };
        let a = ancestor_of(p, (d - 1) as nat);
        let k = choose|k: int| 0 <= k < s.next.len() && s.next[k] == a;
        let x = voxel_data_lods::parent_of(a);
        assert(voxel_data_lods::carries(start.lods, d, before.streaming_enabled, a));
        data_laws::lemma_pass(
            start,
            d,
            before.streaming_enabled,
            before.format,
            generator,
            s.next,
            made[d],
            s.next.len() as int,
            k,
            0,
            Cell::zero(),
        );
        if d < before.lods.len() - 1 {
            assert(!waits(before.lods[d], x));
            carried_parents_are_queued(
                start,
                d,
                before.streaming_enabled,
                s.next,
                made[d],
                k,
            );
        }
    }
}

/// After an update of the coarser levels, where nothing is streamed and nothing
/// waited above the finest level, every given block with voxels has reached all
/// levels: at each level, the octant that its ancestor of the level below takes
/// holds every second voxel of that ancestor.
pub proof fn updates_reach_every_level(
    before: DataModel,
    blocks: Seq<Vector3i>,
    generator: Option<&dyn VoxelGenerator>,
    made: Seq<Seq<Option<BufferModel>>>,
    p: Vector3i,
    d: int,
    c: int,
    o: Cell,
)
    requires
        before.wf(),
        !before.streaming_enabled,
        nothing_waits_above(before),
        1 <= d < before.lods.len(),
        voxel_data_lods::update_made(before, blocks, generator, made, before.lods.len() - 1),
        blocks.contains(p),
        before.lods[0].has_voxels(p),
        0 <= c < MAX_CHANNELS,
        o.in_grid(Cell::splat(BLOCK_SIZE / 2)),
    ensures
        data_laws::octant_samples(
            voxel_data_lods::update_after(before, blocks, made, before.lods.len() - 1).lods,
            d,
            ancestor_of(p, (d - 1) as nat),
            c,
            o,
        ),
{
    lemma_ancestor_is_carried(before, blocks, generator, made, p, d - 1);
    lemma_update_leaves_levels(before, blocks, made, d - 1, d);
    data_laws::updated_parents_sample_their_children(
        before,
        blocks,
        generator,
        made,
        before.lods.len() - 1,
        d,
        ancestor_of(p, (d - 1) as nat),
        c,
        o,
    );
}

/// The value of channel `c` of voxel `v` of a map that holds it.
pub open spec fn voxel_in(m: MapModel, v: Vector3i, c: int) -> u64 {
    (m.blocks[voxel_data_map::block_of(v)].voxels->0).value(c, voxel_data_map::local_of(v))
}

/// The depth at which the block of voxel `v` stores channel `c`.
pub open spec fn depth_in(m: MapModel, v: Vector3i, c: int) -> ChannelDepth {
    (m.blocks[voxel_data_map::block_of(v)].voxels->0).channels[c].depth
}

/// An octant that samples its block holds, at every voxel of it, the voxel of the
/// finer level at twice the coordinates.
pub proof fn sampled_octants_hold_every_second_voxel(
    lods: Seq<MapModel>,
    d: int,
    v: Vector3i,
    w: Vector3i,
    c: int,
)
    requires
        v@ == w@.times(2),
        data_laws::octant_samples(
            lods,
            d,
            voxel_data_map::block_of(v),
            c,
            voxel_data_map::local_of(v).over(2),
        ),
    ensures
        lods[d].has_voxels(voxel_data_map::block_of(w)),
        lods[d - 1].has_voxels(voxel_data_map::block_of(v)),
        depth_in(lods[d], w, c).truncated(voxel_in(lods[d], w, c)) == depth_in(
            lods[d],
            w,
            c,
        ).truncated(voxel_in(lods[d - 1], v, c)),
{
    place_laws::halved_voxels_lie_in_the_octant(v, w);
}

/// Where voxel `w` times a power of two is a voxel of block `p`, `w` itself is a
/// voxel of the ancestor.
proof fn lemma_voxel_in_ancestor(v: Vector3i, w: Vector3i, d: nat)
    requires
        v@ == w@.times(pow2(d) as int),
    ensures
        voxel_data_map::block_of(w) == ancestor_of(voxel_data_map::block_of(v), d),
{
    let n = pow2(d) as int;
    lemma_pow2_pos(d);
    lemma_axis_in_ancestor(w.x as int, n);
    lemma_axis_in_ancestor(w.y as int, n);
    lemma_axis_in_ancestor(w.z as int, n);
    voxel_data_map::lemma_local(v);
    voxel_data_map::lemma_local(w);
    let a = ancestor_of(voxel_data_map::block_of(v), d);
    assert(a@ == voxel_data_map::block_of(w)@);
}

proof fn lemma_axis_in_ancestor(w: int, n: int)
    requires
        n > 0,
    ensures
        (w * n / 16) / n == w / 16,
{
    let q = w / 16;
    let r = w % 16;
    let x = (w * n) / 16;
    assert(w * n == 16 * (q * n) + r * n) by (nonlinear_arith)
        requires
            w == 16 * q + r,
    ;
    assert(0 <= r * n <= 15 * n) by (nonlinear_arith)
        requires
            0 <= r <= 15,
            n > 0,
    ;
    let s = x - q * n;
    assert(0 <= s < n) by (nonlinear_arith)
        requires
            w * n == 16 * (q * n) + r * n,
            0 <= r * n <= 15 * n,
            16 * x <= w * n < 16 * x + 16,
            s == x - q * n,
            n > 0,
    ;
    vstd::arithmetic::div_mod::lemma_fundamental_div_mod_converse(x, n, q, s);
}

/// After such an update, a voxel of a given block whose coordinates are multiples
/// of `2^d` is what level `d` shows at its place, as far as the depth of the
/// blocks holds it, if that is the same at all levels on the way. The finest
/// level keeps its voxels.
pub proof fn updates_show_the_finest_voxels(
    before: DataModel,
    blocks: Seq<Vector3i>,
    generator: Option<&dyn VoxelGenerator>,
    made: Seq<Seq<Option<BufferModel>>>,
    v: Vector3i,
    w: Vector3i,
    d: int,
    c: int,
    depth: ChannelDepth,
)
    requires
        before.wf(),
        !before.streaming_enabled,
        nothing_waits_above(before),
        0 <= d < before.lods.len(),
        voxel_data_lods::update_made(before, blocks, generator, made, before.lods.len() - 1),
        blocks.contains(voxel_data_map::block_of(v)),
        before.lods[0].has_voxels(voxel_data_map::block_of(v)),
        v@ == w@.times(pow2(d as nat) as int),
        0 <= c < MAX_CHANNELS,
        ({
            let end = voxel_data_lods::update_after(before, blocks, made, before.lods.len() - 1);
            forall|l: int|
                1 <= l <= d ==> (#[trigger] end.lods[l].blocks[ancestor_of(
                    voxel_data_map::block_of(v),
                    l as nat,
                )].voxels->0).channels[c].depth == depth
        }),
    ensures
        ({
            let end = voxel_data_lods::update_after(before, blocks, made, before.lods.len() - 1);
            depth.truncated(voxel_in(end.lods[d], w, c)) == depth.truncated(
                voxel_in(before.lods[0], v, c),
            )
        }),
    decreases d,
{
    let last = before.lods.len() - 1;
    let end = voxel_data_lods::update_after(before, blocks, made, last);
    let p = voxel_data_map::block_of(v);
    if d == 0 {
        lemma2_to64();
        assert(pow2(d as nat) == 1);
        assert(v@ == w@.times(1));
        assert(w.x * 1 == w.x && w.y * 1 == w.y && w.z * 1 == w.z);
        assert(v == w);
        lemma_finest_level_keeps_voxels(before, blocks, generator, made, last, p);
    } else {
        lemma_pow2_unfold(d as nat);
        lemma_pow2_pos((d - 1) as nat);
        let n = pow2((d - 1) as nat) as int;
        // The voxel of the level below that `w` samples.
        assert(w@.times(2 * n) == w@.times(2).times(n)) by (nonlinear_arith);
        lemma_doubled_fits(w@, v@, n);
        let u = Vector3i::from_cell(w@.times(2));
        assert(u@ == w@.times(2));
        updates_show_the_finest_voxels(before, blocks, generator, made, v, u, d - 1, c, depth);
        lemma_voxel_in_ancestor(v, u, (d - 1) as nat);
        lemma_voxel_in_ancestor(v, w, d as nat);
        place_laws::halved_voxels_lie_in_the_octant(u, w);
        updates_reach_every_level(
            before,
            blocks,
            generator,
            made,
            p,
            d,
            c,
            voxel_data_map::local_of(u).over(2),
        );
        sampled_octants_hold_every_second_voxel(end.lods, d, u, w, c);
    }
}

pub(crate) proof fn lemma_doubled_fits(w: Cell, v: Cell, n: int)
    requires
        n > 0,
        v.fits(),
        v == w.times(2).times(n),
    ensures
        w.times(2).fits(),
{
    lemma_doubled_axis(2 * w.x, n);
    lemma_doubled_axis(2 * w.y, n);
    lemma_doubled_axis(2 * w.z, n);
}

proof fn lemma_doubled_axis(a: int, n: int)
    requires
        n > 0,
        i32::MIN <= a * n <= i32::MAX,
    ensures
        i32::MIN <= a <= i32::MAX,
{
    assert(i32::MIN <= a <= i32::MAX) by (nonlinear_arith)
        requires
            n > 0,
            i32::MIN <= a * n <= i32::MAX,
    ;
}

/// The finest level keeps its voxels throughout an update.
proof fn lemma_finest_level_keeps_voxels(
    before: DataModel,
    blocks: Seq<Vector3i>,
    generator: Option<&dyn VoxelGenerator>,
    made: Seq<Seq<Option<BufferModel>>>,
    d: int,
    p: Vector3i,
)
    requires
        before.wf(),
        0 <= d < before.lods.len(),
        voxel_data_lods::update_made(before, blocks, generator, made, d),
    ensures
        ({
            let end = voxel_data_lods::update_after(before, blocks, made, d);
            &&& end.lods.len() == before.lods.len()
            &&& end.lods[0].has(p) == before.lods[0].has(p)
            &&& before.lods[0].has(p) ==> end.lods[0].blocks[p].voxels
                == before.lods[0].blocks[p].voxels
        }),
    decreases d,
{
    if d > 0 {
        lemma_finest_level_keeps_voxels(before, blocks, generator, made, d - 1, p);
        data_laws::lemma_update_wf(before, blocks, generator, made, d - 1);
        let s = voxel_data_lods::update_after(before, blocks, made, d - 1);
        data_laws::lemma_pass_keeps(
            PassState { next: Seq::empty(), ..s },
            d,
            before.streaming_enabled,
            before.format,
            generator,
            s.next,
            made[d],
            s.next.len() as int,
        );
        let end = voxel_data_lods::update_after(before, blocks, made, d);
        assert(data_laws::same_voxels(s.lods, end.lods, 0));
        assert(end.lods[0].blocks.contains_key(p) == s.lods[0].blocks.contains_key(p));
    }
}

/// Block `q` is the parent of one of the first `n` blocks of `work`.
spec fn is_parent(work: Seq<Vector3i>, n: int, q: Vector3i) -> bool {
    exists|k: int| 0 <= k < n && #[trigger] voxel_data_lods::parent_of(work[k]) == q
}

/// One of the first `n` blocks of `work` is `q`.
spec fn is_listed(work: Seq<Vector3i>, n: int, q: Vector3i) -> bool {
    exists|k: int| 0 <= k < n && #[trigger] work[k] == q
}

/// A block that waits no longer, where it is there.
spec fn settled_block(m: MapModel, q: Vector3i, settle: bool) -> Option<BlockModel> {
    if m.has(q) && settle {
        Some(BlockModel { needs_lodding: false, ..m.blocks[q] })
    } else {
        m.blocks.get(q)
    }
}

/// What the first `n` steps of a pass to level `d` do to one block: at level `d`
/// nothing unless it is listed as updated, and then it has voxels and is
/// modified; at level `d - 1` it only stops waiting, if it was carried.
proof fn lemma_pass_frame(
    start: PassState,
    d: int,
    streaming: bool,
    work: Seq<Vector3i>,
    made: Seq<Option<BufferModel>>,
    n: int,
    q: Vector3i,
)
    requires
        1 <= d < start.lods.len(),
        0 <= n <= work.len(),
        start.next.len() == 0,
    ensures
        ({
            let end = voxel_data_lods::pass_after(start, d, streaming, work, made, n);
            let here = BlockLocation { position: q, lod_index: d as u8 };
            &&& end.lods.len() == start.lods.len()
            &&& !is_parent(work, n, q) ==> end.lods[d].blocks.get(q) == start.lods[d].blocks.get(q)
            &&& !end.updated.contains(here) ==> end.lods[d].blocks.get(q)
                == start.lods[d].blocks.get(q)
            &&& end.updated.contains(here) && !start.updated.contains(here)
                ==> end.lods[d].has_voxels(q) && end.lods[d].blocks[q].modified
            &&& end.lods[d - 1].blocks.get(q) == settled_block(
                start.lods[d - 1],
                q,
                is_listed(work, n, q),
            )
            &&& end.next.contains(q) ==> is_parent(work, n, q)
            &&& forall|x: BlockLocation| #[trigger]
                start.updated.contains(x) ==> end.updated.contains(x)
            &&& forall|x: BlockLocation| #[trigger]
                end.updated.contains(x) ==> start.updated.contains(x) || x.lod_index == d as u8
            &&& d == start.lods.len() - 1 ==> (waits(end.lods[d], q) ==> waits(start.lods[d], q))
        }),
    decreases n,
{
    if n > 0 {
        lemma_pass_frame(start, d, streaming, work, made, n - 1, q);
        let s = voxel_data_lods::pass_after(start, d, streaming, work, made, n - 1);
        let end = voxel_data_lods::pass_after(start, d, streaming, work, made, n);
        let here = BlockLocation { position: q, lod_index: d as u8 };
        let p = work[n - 1];
        let x = voxel_data_lods::parent_of(p);
        let b = voxel_data_lods::parent_with_voxels(s.lods[d], p, made[n - 1]);
        let place = BlockLocation { position: x, lod_index: d as u8 };
        assert(is_parent(work, n, q) == (is_parent(work, n - 1, q) || x == q)) by {
            if is_parent(work, n - 1, q) {
                let k = choose|k: int|
                    0 <= k < n - 1 && #[trigger] voxel_data_lods::parent_of(work[k]) == q;
                assert(voxel_data_lods::parent_of(work[k]) == q);
            }
            if x == q {
                assert(voxel_data_lods::parent_of(work[n - 1]) == q);
            }
        }
        assert(is_listed(work, n, q) == (is_listed(work, n - 1, q) || p == q)) by {
            if is_listed(work, n - 1, q) {
                let k = choose|k: int| 0 <= k < n - 1 && #[trigger] work[k] == q;
                assert(work[k] == q);
            }
            assert(work[n - 1] == p);
        }
        assert forall|y: BlockLocation| #[trigger] end.updated.contains(y) == (s.updated.contains(y)
            || (end.updated != s.updated && y == place)) by {
            if end.updated != s.updated {
                assert(end.updated == s.updated.push(place));
                assert(end.updated[s.updated.len() as int] == place);
                if s.updated.contains(y) {
                    let j = choose|j: int| 0 <= j < s.updated.len() && s.updated[j] == y;
                    assert(end.updated[j] == y);
                }
                if end.updated.contains(y) && y != place {
                    let j = choose|j: int| 0 <= j < end.updated.len() && end.updated[j] == y;
                    assert(s.updated[j] == y);
                }
            }
        }
        if voxel_data_lods::carries(s.lods, d, streaming, p) {
            assert(end.updated.len() == s.updated.len() + 1);
        }
        assert(end.next.contains(q) ==> s.next.contains(q) || q == x) by {
            if end.next.contains(q) {
                let j = choose|j: int| 0 <= j < end.next.len() && end.next[j] == q;
                if j < s.next.len() {
                    assert(s.next[j] == q);
                }
            }
        }
        assert(s.lods[d].has(x) ==> b.needs_lodding == s.lods[d].blocks[x].needs_lodding);
        assert(end.lods[d - 1].blocks.get(q) == settled_block(s.lods[d - 1], q, p == q));
    }
}

/// Block `q` of level `l` holds one of the given blocks.
pub open spec fn holds_a_given_block(blocks: Seq<Vector3i>, l: int, q: Vector3i) -> bool {
    exists|k: int| 0 <= k < blocks.len() && #[trigger] ancestor_of(blocks[k], l as nat) == q
}

/// What the passes up to level `d` leave of one block of level `l`.
proof fn lemma_update_frame(
    before: DataModel,
    blocks: Seq<Vector3i>,
    made: Seq<Seq<Option<BufferModel>>>,
    d: int,
    l: int,
    q: Vector3i,
)
    requires
        before.wf(),
        0 <= d < before.lods.len(),
        0 <= l < before.lods.len(),
    ensures
        ({
            let end = voxel_data_lods::update_after(before, blocks, made, d);
            let here = BlockLocation { position: q, lod_index: l as u8 };
            &&& end.lods.len() == before.lods.len()
            &&& !holds_a_given_block(blocks, l, q) ==> end.lods[l].blocks.get(q)
                == before.lods[l].blocks.get(q)
            &&& forall|x: Vector3i| #[trigger]
                end.next.contains(x) ==> holds_a_given_block(blocks, d, x)
            &&& forall|x: BlockLocation| #[trigger] end.updated.contains(x) ==> x.lod_index <= d
            &&& l > 0 && !end.updated.contains(here) ==> end.lods[l].blocks.get(q)
                == before.lods[l].blocks.get(q)
            &&& l > 0 && end.updated.contains(here) ==> end.lods[l].has_voxels(q)
                && end.lods[l].blocks[q].modified
            &&& end.updated.contains(BlockLocation { position: q, lod_index: 0 }) <==> blocks.contains(
                q,
            ) && before.lods[0].has(q)
            &&& waits(end.lods[l], q) ==> waits(before.lods[l], q) || (l == d && end.next.contains(q))
            &&& l == 0 && blocks.contains(q) ==> !waits(end.lods[0], q)
        }),
    decreases d,
{
    if d <= 0 {
        let m = before.lods[0];
        let end = voxel_data_lods::update_start(before, blocks);
        let present = |p: Vector3i| m.has(p);
        let locate = |p: Vector3i| BlockLocation { position: p, lod_index: 0u8 };
        let listed = blocks.filter(present);
        collections::lemma_filter_facts(blocks, present);
        assert forall|x: Vector3i| blocks.contains(x) implies #[trigger] holds_a_given_block(
            blocks,
            0,
            x,
        ) by {
            let k = choose|k: int| 0 <= k < blocks.len() && blocks[k] == x;
            ancestors_are_parents_of_ancestors(x, 0);
            assert(ancestor_of(blocks[k], 0int as nat) == x);
        }
        let here = BlockLocation { position: q, lod_index: 0 };
        if end.updated.contains(here) {
            let j = choose|j: int| 0 <= j < end.updated.len() && end.updated[j] == here;
            assert(listed[j] == q);
            assert(listed.contains(q));
        }
        if blocks.contains(q) && m.has(q) {
            assert(listed.contains(q));
            let j = choose|j: int| 0 <= j < listed.len() && listed[j] == q;
            assert(end.updated[j] == here);
        }
        assert forall|x: BlockLocation| #[trigger] end.updated.contains(x) implies x.lod_index
            == 0 by {
            let j = choose|j: int| 0 <= j < end.updated.len() && end.updated[j] == x;
            assert(end.updated[j] == locate(listed[j]));
        }
    } else {
        let s = voxel_data_lods::update_after(before, blocks, made, d - 1);
        let start = PassState { next: Seq::empty(), ..s };
        let n = s.next.len() as int;
        let end = voxel_data_lods::update_after(before, blocks, made, d);
        let here = BlockLocation { position: q, lod_index: l as u8 };
        lemma_update_frame(before, blocks, made, d - 1, l, q);
        lemma_update_frame(before, blocks, made, d - 1, d, q);
        assert forall|x: Vector3i| #[trigger] s.next.contains(x) implies holds_a_given_block(
            blocks,
            d,
            voxel_data_lods::parent_of(x),
        ) by {
            assert(holds_a_given_block(blocks, d - 1, x));
            let k = choose|k: int|
                0 <= k < blocks.len() && #[trigger] ancestor_of(blocks[k], (d - 1) as nat) == x;
            ancestors_are_parents_of_ancestors(blocks[k], (d - 1) as nat);
            assert(ancestor_of(blocks[k], d as nat) == voxel_data_lods::parent_of(x));
        }
        assert forall|x: Vector3i| is_parent(s.next, n, x) implies #[trigger] holds_a_given_block(
            blocks,
            d,
            x,
        ) by {
            let k = choose|k: int|
                0 <= k < n && #[trigger] voxel_data_lods::parent_of(s.next[k]) == x;
            assert(s.next.contains(s.next[k]));
        }
        assert forall|x: Vector3i| #[trigger] end.next.contains(x) implies holds_a_given_block(
            blocks,
            d,
            x,
        ) by {
            lemma_pass_frame(start, d, before.streaming_enabled, s.next, made[d], n, x);
        }
        lemma_pass_frame(start, d, before.streaming_enabled, s.next, made[d], n, q);
        lemma_update_leaves_levels(before, blocks, made, d - 1, d);
        assert(is_listed(s.next, n, q) == s.next.contains(q));
        if d < before.lods.len() - 1 {
            lemma_pass_queues(start, d, before.streaming_enabled, s.next, made[d], n);
            assert(waits(end.lods[d], q) <==> waits(start.lods[d], q) || end.next.contains(q));
        }
        if l != d && l != d - 1 {
            lemma_pass_leaves_levels(
                start,
                d,
                before.streaming_enabled,
                s.next,
                made[d],
                n,
                l,
            );
        }
        if l == d - 1 && s.next.contains(q) {
            assert(!waits(end.lods[l], q));
            assert(holds_a_given_block(blocks, l, q));
        }
        let finest = BlockLocation { position: q, lod_index: 0 };
        assert(d as u8 == d && l as u8 == l);
        assert(end == voxel_data_lods::pass_after(
            start,
            d,
            before.streaming_enabled,
            s.next,
            made[d],
            n,
        ));
        assert(start.updated == s.updated);
        assert(start.updated.contains(finest) ==> end.updated.contains(finest));
        assert(end.updated.contains(finest) ==> start.updated.contains(finest));
        assert(end.updated.contains(finest) == s.updated.contains(finest));
        if l == d - 1 && l > 0 {
            assert(end.updated.contains(here) == s.updated.contains(here));
            lemma_queued_are_updated(before, blocks, made, d - 1, q);
        }
        if l != d {
            assert(end.updated.contains(here) == s.updated.contains(here));
        } else {
            assert(!s.updated.contains(here));
        }
    }
}

/// What a pass queues, it has updated.
proof fn lemma_queued_are_updated(
    before: DataModel,
    blocks: Seq<Vector3i>,
    made: Seq<Seq<Option<BufferModel>>>,
    d: int,
    q: Vector3i,
)
    requires
        1 <= d < before.lods.len(),
    ensures
        ({
            let end = voxel_data_lods::update_after(before, blocks, made, d);
            end.next.contains(q) ==> end.updated.contains(
                BlockLocation { position: q, lod_index: d as u8 },
            )
        }),
{
    let s = voxel_data_lods::update_after(before, blocks, made, d - 1);
    lemma_pass_queued_are_updated(
        PassState { next: Seq::empty(), ..s },
        d,
        before.streaming_enabled,
        s.next,
        made[d],
        s.next.len() as int,
        q,
    );
}

proof fn lemma_pass_queued_are_updated(
    start: PassState,
    d: int,
    streaming: bool,
    work: Seq<Vector3i>,
    made: Seq<Option<BufferModel>>,
    n: int,
    q: Vector3i,
)
    requires
        start.next.len() == 0,
        n <= work.len(),
    ensures
        ({
            let end = voxel_data_lods::pass_after(start, d, streaming, work, made, n);
            end.next.contains(q) ==> end.updated.contains(
                BlockLocation { position: q, lod_index: d as u8 },
            )
        }),
    decreases n,
{
    if n > 0 {
        lemma_pass_queued_are_updated(start, d, streaming, work, made, n - 1, q);
        let s = voxel_data_lods::pass_after(start, d, streaming, work, made, n - 1);
        let end = voxel_data_lods::pass_after(start, d, streaming, work, made, n);
        let here = BlockLocation { position: q, lod_index: d as u8 };
        if end.next.contains(q) {
            let j = choose|j: int| 0 <= j < end.next.len() && end.next[j] == q;
            if j < s.next.len() {
                assert(s.next[j] == q);
                assert(s.updated.contains(here));
                let i = choose|i: int| 0 <= i < s.updated.len() && s.updated[i] == here;
                assert(end.updated[i] == here);
            } else {
                assert(end.updated[s.updated.len() as int] == here);
            }
        }
    }
}

/// An update of the coarser levels changes only blocks that hold a given block.
/// Above the finest level it changes only what it lists, and what it lists has
/// voxels and is modified. Of the finest level it lists the given blocks that are
/// there, and these wait no longer; no block waits that did not wait before.
pub proof fn updates_change_what_they_list(
    before: DataModel,
    blocks: Seq<Vector3i>,
    made: Seq<Seq<Option<BufferModel>>>,
    l: int,
    q: Vector3i,
)
    requires
        before.wf(),
        0 <= l < before.lods.len(),
    ensures
        ({
            let last = before.lods.len() - 1;
            let end = voxel_data_lods::update_after(before, blocks, made, last);
            let here = BlockLocation { position: q, lod_index: l as u8 };
            &&& !holds_a_given_block(blocks, l, q) ==> end.lods[l].blocks.get(q)
                == before.lods[l].blocks.get(q)
            &&& l > 0 && !end.updated.contains(here) ==> end.lods[l].blocks.get(q)
                == before.lods[l].blocks.get(q)
            &&& l > 0 && end.updated.contains(here) ==> end.lods[l].has_voxels(q)
                && end.lods[l].blocks[q].modified
            &&& l == 0 ==> (end.updated.contains(here) <==> blocks.contains(q)
                && before.lods[0].has(q))
            &&& l == 0 && blocks.contains(q) && last > 0 ==> !waits(end.lods[0], q)
            &&& waits(end.lods[l], q) && last > 0 ==> waits(before.lods[l], q)
        }),
{
    let last = before.lods.len() - 1;
    lemma_update_frame(before, blocks, made, last, l, q);
    if l == last && last > 0 {
        lemma_last_level_waits_as_before(before, blocks, made, q);
    }
}

proof fn lemma_last_level_waits_as_before(
    before: DataModel,
    blocks: Seq<Vector3i>,
    made: Seq<Seq<Option<BufferModel>>>,
    q: Vector3i,
)
    requires
        before.wf(),
        before.lods.len() > 1,
    ensures
        ({
            let last = before.lods.len() - 1;
            let end = voxel_data_lods::update_after(before, blocks, made, last);
            waits(end.lods[last], q) ==> waits(before.lods[last], q)
        }),
{
    let last = before.lods.len() - 1;
    let s = voxel_data_lods::update_after(before, blocks, made, last - 1);
    lemma_update_leaves_levels(before, blocks, made, last - 1, last);
    lemma_pass_frame(
        PassState { next: Seq::empty(), ..s },
        last,
        before.streaming_enabled,
        s.next,
        made[last],
        s.next.len() as int,
        q,
    );
}

} // verus!
