//! What copies out of the data hold, and when edits and changes of the number
//! of levels are answered how.

use crate::area_laws;
use crate::boxes;
use crate::buffer_model::BufferModel;
use crate::channel;
use crate::channel::MAX_CHANNELS;
use crate::data_copy;
use crate::grid::Cell;
use crate::level_laws;
use crate::map_paste;
use crate::math::Vector3i;
use crate::mutation_error::SharedVoxelDataMutationError;
use crate::place_laws;
use crate::shared_data::SharedModel;
use crate::shared_edits;
use crate::voxel_data;
use crate::voxel_data::{DataModel, VoxelDataLodResizeError};
use crate::voxel_data_map;
use crate::voxel_edit;
use crate::voxel_edit::EditAnswer;
use vstd::arithmetic::power2::pow2;
use vstd::prelude::*;

verus! {

/// Where a copy finds voxels in memory it holds them; where it may ask the
/// generator it holds what is made of an empty block at the first voxel of the
/// block, if that voxel is in bounds; elsewhere it holds defaults. Voxel `c` of
/// the copy is the one at `min_pos + c`. Values are compared as far as the
/// format holds them.
pub proof fn copied_voxels_are_those_of_the_data(
    d: DataModel,
    before: BufferModel,
    min_pos: Vector3i,
    mask: u32,
    generate_missing: bool,
    after: BufferModel,
    i: int,
    c: Cell,
    p: Vector3i,
    local: Cell,
)
    requires
        d.wf(),
        before.wf(),
        min_pos@.plus(before.size).fits(),
        data_copy::copy_depths_agree(d, data_copy::copy_cells(min_pos, before.size), mask),
        data_copy::copy_outcome(d, before, min_pos, mask, generate_missing, after),
        0 <= i < MAX_CHANNELS,
        (mask >> (i as u32)) & 1 == 1,
        c.in_grid(before.size),
        place_laws::is_voxel_of(min_pos@.plus(c), p@, local),
    ensures
        ({
            let depth = d.format[i];
            let read = depth.truncated(after.value(i, c));
            let start = level_laws::first_voxel(p, 0);
            let asks = generate_missing && d.generator is Some && area_laws::in_box(
                d.bounds,
                start,
            );
            &&& d.lods[0].has_voxels(p) ==> read == depth.truncated(
                (d.lods[0].blocks[p].voxels->0).value(i, local),
            )
            &&& !d.lods[0].has_voxels(p) && !asks ==> read == depth.truncated(
                channel::default_raw(i, depth),
            )
            &&& !d.lods[0].has_voxels(p) && asks ==> exists|made: BufferModel| #[trigger]
                (d.generator->0).may_generate(
                    voxel_data_map::block_buffer(d.format),
                    start,
                    0,
                    made,
                ) && read == depth.truncated(made.value(i, local))
        }),
{
    data_copy::copied_voxels_come_from_their_blocks(
        d,
        before,
        min_pos,
        mask,
        generate_missing,
        after,
        i,
        c,
    );
    let v = Vector3i::from_cell(min_pos@.plus(c));
    assert(v@ == min_pos@.plus(c));
    place_laws::voxels_lie_in_their_blocks(v, p, local);
    let src = choose|src: BufferModel| #[trigger]
        data_copy::copy_source(d, generate_missing, p, src) && d.format[i].truncated(
            after.value(i, c),
        ) == d.format[i].truncated(src.value(i, local));
    assert(data_copy::copy_source(d, generate_missing, p, src));
    vstd::arithmetic::power2::lemma2_to64();
    let corner = p@.times(16);
    assert(corner.fits()) by {
        assert(i32::MIN <= min_pos@.x && i32::MIN <= min_pos@.y && i32::MIN <= min_pos@.z);
    }
    assert(level_laws::first_voxel(p, 0) == Vector3i::from_cell(corner)) by {
        assert(16 * pow2(0) as int == 16);
        assert(p.x * (16 * pow2(0) as int) == p.x * 16);
        assert(p.y * (16 * pow2(0) as int) == p.y * 16);
        assert(p.z * (16 * pow2(0) as int) == p.z * 16);
    }
    assert(level_laws::first_voxel(p, 0)@ == corner);
    level_laws::new_blocks_hold_defaults(d.format, i, local);
}

proof fn lemma_unselected_stay(
    dst: BufferModel,
    min_pos: Vector3i,
    mask: u32,
    cells: Seq<Vector3i>,
    sources: Seq<BufferModel>,
    n: int,
    i: int,
)
    requires
        0 <= i < dst.channels.len(),
    ensures
        ({
            let after = data_copy::blocks_copied(dst, min_pos, mask, cells, sources, n);
            &&& after.size == dst.size
            &&& after.channels.len() == dst.channels.len()
            &&& after.allocator == dst.allocator
            &&& after.block_metadata == dst.block_metadata
            &&& after.voxel_metadata == dst.voxel_metadata
            &&& !map_paste::in_channels(mask, i) ==> after.channels[i] == dst.channels[i]
        }),
    decreases n,
{
    if n > 0 {
        lemma_unselected_stay(dst, min_pos, mask, cells, sources, n - 1, i);
    }
}

/// A copy leaves the channels that the mask does not select as they are, unless
/// the format has another depth for them, which empties them. Extent and
/// metadata stay. Without any channel nothing changes.
pub proof fn copies_leave_other_channels(
    d: DataModel,
    before: BufferModel,
    min_pos: Vector3i,
    mask: u32,
    generate_missing: bool,
    after: BufferModel,
    i: int,
    cell: Cell,
)
    requires
        d.wf(),
        before.wf(),
        data_copy::copy_outcome(d, before, min_pos, mask, generate_missing, after),
        0 <= i < MAX_CHANNELS,
    ensures
        mask == 0 ==> after == before,
        after.size == before.size,
        after.block_metadata == before.block_metadata,
        after.voxel_metadata == before.voxel_metadata,
        (mask >> (i as u32)) & 1 != 1 && d.format[i] == before.channels[i].depth
            ==> after.channels[i] == before.channels[i],
        mask != 0 && (mask >> (i as u32)) & 1 != 1 && d.format[i] != before.channels[i].depth
            ==> after.channels[i].depth == d.format[i] && after.value(i, cell)
            == channel::default_raw(i, d.format[i]),
{
    if mask != 0 {
        let start = crate::voxel_format::formatted(before, d.format);
        let cells = data_copy::copy_cells(min_pos, before.size);
        let sources = choose|sources: Seq<BufferModel>| #[trigger]
            data_copy::copy_sources(d, generate_missing, cells, sources) && sources.len()
                == cells.len() && after == data_copy::blocks_copied(
                start,
                min_pos,
                mask,
                cells,
                sources,
                cells.len() as int,
            );
        lemma_unselected_stay(start, min_pos, mask, cells, sources, cells.len() as int, i);
    }
}

/// The block of level `l` that voxel `pos` lies in: its coordinates over the
/// edge of the blocks, rounded down.
pub open spec fn block_above(pos: Vector3i, l: nat) -> Vector3i {
    level_laws::ancestor_of(voxel_data_map::block_of(pos), l)
}

/// Edits touch, at every level, the block that the voxel lies in.
pub proof fn edited_blocks_hold_the_voxel(pos: Vector3i, l: int)
    requires
        l >= 0,
    ensures
        voxel_edit::edited_position(pos, l) == block_above(pos, l as nat),
    decreases l,
{
    let p = voxel_data_map::block_of(pos);
    if l == 0 {
        level_laws::ancestors_are_parents_of_ancestors(p, 0);
        assert(block_above(pos, 0) == p);
    } else {
        edited_blocks_hold_the_voxel(pos, l - 1);
        level_laws::ancestors_are_parents_of_ancestors(p, (l - 1) as nat);
        assert(((l - 1) as nat + 1) as nat == l as nat);
    }
}

/// The data holds no voxels for `pos` at level `l`.
pub open spec fn lacks_voxels(d: DataModel, pos: Vector3i, l: int) -> bool {
    !d.lods[l].has_voxels(block_above(pos, l as nat))
}

proof fn lemma_first_stop(s: SharedModel, pos: Vector3i, n: int)
    requires
        0 <= n <= s.data.lods.len(),
        forall|l: int|
            0 <= l < n ==> boxes::block_bounds_exist(
                boxes::single(#[trigger] block_above(pos, l as nat)),
                l as nat,
            ),
    ensures
        voxel_edit::first_stop(s, pos, n) is None <==> (s.may_materialize() || forall|l: int|
            0 <= l < n ==> !#[trigger] lacks_voxels(s.data, pos, l)),
        voxel_edit::first_stop(s, pos, n) matches Some(stop) ==> stop is None,
    decreases n,
{
    if n > 0 {
        lemma_first_stop(s, pos, n - 1);
        edited_blocks_hold_the_voxel(pos, n - 1);
        assert(boxes::block_bounds_exist(
            boxes::single(block_above(pos, (n - 1) as nat)),
            (n - 1) as nat,
        ));
        if voxel_edit::first_stop(s, pos, n) is None {
            assert forall|l: int|
                0 <= l < n && !s.may_materialize() implies !#[trigger] lacks_voxels(
                s.data,
                pos,
                l,
            ) by {
                if l < n - 1 {
                    assert(!lacks_voxels(s.data, pos, l));
                }
            }
        } else if voxel_edit::first_stop(s, pos, n - 1) is None {
            assert(lacks_voxels(s.data, pos, n - 1));
        }
    }
}

proof fn lemma_no_overflow(d: DataModel, pos: Vector3i, n: int)
    requires
        0 <= n,
        forall|l: int|
            0 <= l < n ==> d.lods[l].revision(#[trigger] block_above(pos, l as nat)) < u64::MAX,
    ensures
        voxel_edit::first_overflow(d, pos, n) is None,
    decreases n,
{
    if n > 0 {
        lemma_no_overflow(d, pos, n - 1);
        edited_blocks_hold_the_voxel(pos, n - 1);
        assert(d.lods[n - 1].revision(block_above(pos, (n - 1) as nat)) < u64::MAX);
    }
}

/// An edit of a voxel, as far as positions and revisions have room, is possible
/// exactly where the voxel is in bounds and every level holds voxels for it or
/// missing ones may be made; otherwise there is nothing to do.
pub proof fn edits_need_voxels_at_every_level(s: SharedModel, pos: Vector3i, channel_index: usize)
    requires
        channel_index < MAX_CHANNELS,
        s.data.bounds.end().fits(),
        forall|l: int|
            0 <= l < s.data.lods.len() ==> boxes::block_bounds_exist(
                boxes::single(#[trigger] block_above(pos, l as nat)),
                l as nat,
            ) && s.data.lods[l].revision(block_above(pos, l as nat)) < u64::MAX,
    ensures
        ({
            let answer = voxel_edit::edit_answer(s, pos, channel_index, true, true);
            let may_make = !s.data.streaming_enabled && s.data.full_load_completed;
            let there = forall|l: int|
                0 <= l < s.data.lods.len() ==> !#[trigger] lacks_voxels(s.data, pos, l);
            answer == if area_laws::in_box(s.data.bounds, pos) && (may_make || there) {
                EditAnswer::Possible
            } else {
                EditAnswer::Nothing
            }
        }),
{
    let n = s.data.lods.len() as int;
    lemma_first_stop(s, pos, n);
    lemma_no_overflow(s.data, pos, n);
}

/// An edit is refused for its channel before anything else, and out of bounds
/// there is nothing to do, whether there is room or not.
pub proof fn edits_are_refused_for_their_channel_first(
    s: SharedModel,
    pos: Vector3i,
    channel_index: usize,
    drafts: bool,
    lists: bool,
)
    ensures
        ({
            let answer = voxel_edit::edit_answer(s, pos, channel_index, drafts, lists);
            let refused = SharedVoxelDataMutationError::InvalidChannel { channel_index };
            &&& answer == EditAnswer::Refused(refused) <==> channel_index >= MAX_CHANNELS
            &&& channel_index < MAX_CHANNELS && s.data.bounds.end().fits() && !area_laws::in_box(
                s.data.bounds,
                pos,
            ) ==> answer is Nothing
            &&& answer is Possible ==> drafts && lists && area_laws::in_box(s.data.bounds, pos)
        }),
{
    let n = s.data.lods.len() as int;
    lemma_stops(s, pos, n);
    lemma_overflows(s.data, pos, n);
}

proof fn lemma_stops(s: SharedModel, pos: Vector3i, n: int)
    ensures
        voxel_edit::first_stop(s, pos, n) matches Some(Some(e))
            ==> e is SpatialBoundsOverflow,
    decreases n,
{
    if n > 0 {
        lemma_stops(s, pos, n - 1);
    }
}

proof fn lemma_overflows(d: DataModel, pos: Vector3i, n: int)
    ensures
        voxel_edit::first_overflow(d, pos, n) matches Some(e) ==> e is KeyRevisionOverflow,
    decreases n,
{
    if n > 0 {
        lemma_overflows(d, pos, n - 1);
    }
}

/// Setting a voxel of open shared data, as far as there is room for it, succeeds
/// exactly in bounds and where the block is there or may be made; editing it
/// needs a block with voxels, or that one may be made. Otherwise the answer is
/// no.
pub proof fn shared_voxels_are_set_where_there_are_blocks(
    before: SharedModel,
    value: u64,
    pos: Vector3i,
    channel_index: usize,
    made: Option<BufferModel>,
    r: Result<bool, SharedVoxelDataMutationError>,
    after: SharedModel,
    edit: bool,
)
    requires
        channel_index < MAX_CHANNELS,
        !before.closed,
        before.data.lods[0].revision(voxel_data_map::block_of(pos)) < u64::MAX,
        shared_edits::edit_bounds_exist(pos),
        edit ==> shared_edits::edit_outcome(
            before,
            value,
            pos,
            channel_index,
            made,
            true,
            r,
            after,
        ),
        !edit ==> shared_edits::set_outcome(before, value, pos, channel_index, true, r, after),
    ensures
        ({
            let p = voxel_data_map::block_of(pos);
            let m = before.data.lods[0];
            let may_make = !before.data.streaming_enabled && before.data.full_load_completed;
            let there = m.blocks.contains_key(p) && (edit ==> m.blocks[p].voxels is Some);
            &&& r is Ok
            &&& r == Ok::<bool, SharedVoxelDataMutationError>(
                area_laws::in_box(before.data.bounds, pos) && (there || may_make),
            )
            &&& r == Ok::<bool, SharedVoxelDataMutationError>(false) ==> after == before
        }),
{
}

/// A voxel in a block at the very edge of the coordinates, a wrong channel, a
/// worn-out key or closed data stop a voxel from being set or edited.
pub proof fn shared_voxels_are_refused(
    before: SharedModel,
    value: u64,
    pos: Vector3i,
    channel_index: usize,
    made: Option<BufferModel>,
    reserved: bool,
    r: Result<bool, SharedVoxelDataMutationError>,
    after: SharedModel,
    edit: bool,
)
    requires
        edit ==> shared_edits::edit_outcome(
            before,
            value,
            pos,
            channel_index,
            made,
            reserved,
            r,
            after,
        ),
        !edit ==> shared_edits::set_outcome(before, value, pos, channel_index, reserved, r, after),
    ensures
        channel_index >= MAX_CHANNELS ==> r == Err::<bool, _>(
            SharedVoxelDataMutationError::InvalidChannel { channel_index },
        ),
        channel_index >= MAX_CHANNELS || before.closed
            || before.data.lods[0].revision(voxel_data_map::block_of(pos)) == u64::MAX
            || !reserved ==> r != Ok::<bool, SharedVoxelDataMutationError>(true),
        r is Err ==> after == before,
        r == Ok::<bool, SharedVoxelDataMutationError>(true) ==> {
            let p = voxel_data_map::block_of(pos);
            &&& i32::MIN <= p.x * 16 && p.x * 16 + 16 <= i32::MAX
            &&& i32::MIN <= p.y * 16 && p.y * 16 + 16 <= i32::MAX
            &&& i32::MIN <= p.z * 16 && p.z * 16 + 16 <= i32::MAX
        },
{
    let p = voxel_data_map::block_of(pos);
    assert(boxes::stride_of(0) == 16);
    assert(boxes::single(p).end() == p@.plus(Cell::splat(1)));
}

/// A change of the number of levels keeps the blocks of every level that stays
/// and makes the others empty; it is refused, with nothing changed, if the
/// number is out of range or a level to be dropped has blocks.
pub proof fn levels_are_changed_without_losing_blocks(
    before: DataModel,
    after: DataModel,
    n: usize,
    reserved: bool,
    r: Result<(), VoxelDataLodResizeError>,
    l: int,
    p: Vector3i,
)
    requires
        voxel_data::resize_outcome(before, after, n, reserved, r),
    ensures
        n < 1 || n >= voxel_data::MAX_LOD ==> r == Err::<(), _>(
            VoxelDataLodResizeError::InvalidLodCount { requested: n },
        ),
        r is Err ==> after == before,
        r is Ok ==> {
            &&& after.lods.len() == n
            &&& 0 <= l < n && l < before.lods.len() ==> after.lods[l] == before.lods[l]
            &&& before.lods.len() <= l < n ==> !after.lods[l].blocks.contains_key(p)
                && after.lods[l].revision(p) == 0 && after.lods[l].format == before.format
            &&& n <= l < before.lods.len() ==> !before.lods[l].blocks.contains_key(p)
            &&& after.bounds == before.bounds && after.format == before.format
        },
        1 <= n < voxel_data::MAX_LOD && n <= before.lods.len() && n <= l < before.lods.len()
            && before.lods[l].blocks.contains_key(p) ==> r is Err,
        r matches Err(VoxelDataLodResizeError::NonEmptyTruncatedLod { lod_index: k }) ==> n <= k
            < before.lods.len() && exists|q: Vector3i| #[trigger]
            before.lods[k as int].blocks.contains_key(q),
{
    if r is Ok && n <= l < before.lods.len() {
        assert(!before.occupied(l));
    }
    if 1 <= n < voxel_data::MAX_LOD && n <= l < before.lods.len()
        && before.lods[l].blocks.contains_key(p) {
        assert(before.occupied(l));
    }
    match r {
        Err(VoxelDataLodResizeError::NonEmptyTruncatedLod { lod_index: k }) => {
            let blocks = before.lods[k as int].blocks;
            if forall|q: Vector3i| !#[trigger] blocks.contains_key(q) {
                assert(blocks =~= Map::empty());
            }
        },
        _ => {},
    }
}

} // verus!
