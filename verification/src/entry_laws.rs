//! What holds of single bytes, numbers, metadata entries and snapshots.

use crate::boxes;
use crate::buffer_model::BufferModel;
use crate::channel;
use crate::channel::MAX_CHANNELS;
use crate::depth::ChannelDepth;
use crate::funcs;
use crate::grid;
use crate::grid::Cell;
use crate::math::{Axis, OrthoBasis, Vector3i};
use crate::metadata;
use crate::metadata::{MetadataModel, MetadataValue};
use crate::place_laws;
use crate::prepared_transaction;
use crate::stale_laws;
use crate::transaction;
use crate::transaction::OperationModel;
use crate::transaction_preview;
use crate::transaction_preview::PreviewLineage;
use crate::voxel_buffer;
use crate::voxel_data::{BlockLocation, DataModel};
use crate::voxel_data_lods;
use crate::voxel_laws;
use vstd::arithmetic::power2::pow2;
use vstd::prelude::*;

verus! {

proof fn lemma_run(a: int, y: int, j: int, k: int)
    requires
        0 <= j < k,
    ensures
        a * k <= y * k + j <==> a <= y,
        y * k + j < a * k <==> y < a,
{
    assert(a <= y ==> a * k <= y * k) by (nonlinear_arith)
        requires
            0 < k,
    ;
    assert(a > y ==> a * k >= y * k + k) by (nonlinear_arith)
        requires
            0 < k,
    ;
}

proof fn lemma_byte_index(size: Cell, c: Cell, j: int, k: int)
    requires
        c.in_grid(size),
        0 <= j < k,
    ensures
        ({
            let bytes = funcs::byte_grid(size, k);
            let b = Cell { x: c.x, y: c.y * k + j, z: c.z };
            &&& b.in_grid(bytes)
            &&& grid::zxy(bytes, b) == grid::zxy(size, c) * k + j
            &&& grid::volume(bytes) == grid::volume(size) * k
        }),
{
    lemma_run(0, c.y, j, k);
    lemma_run(size.y, c.y, j, k);
    let row = c.x + size.x * c.z;
    assert((c.y * k + j) + (size.y * k) * row == (c.y + size.y * row) * k + j) by (nonlinear_arith);
    assert(size.x * (size.y * k) * size.z == size.x * size.y * size.z * k) by (nonlinear_arith);
}

/// Copying a box of items of some bytes moves every byte of the items between
/// the corners, wherever both arrays have the item, so that the lower corner
/// comes to lie at `dst_min`. All other bytes stay.
pub proof fn items_are_copied_where_both_have_them(
    dst: Seq<u8>,
    dst_size: Cell,
    dst_min: Cell,
    src: Seq<u8>,
    src_size: Cell,
    src_min: Cell,
    src_max: Cell,
    item_size: int,
    cell: Cell,
    j: int,
)
    requires
        0 <= j < item_size,
        dst.len() == grid::volume(dst_size) * item_size,
        src.len() == grid::volume(src_size) * item_size,
        voxel_laws::inside(cell, dst_size),
    ensures
        ({
            let after = funcs::copied_bytes(
                dst,
                dst_size,
                dst_min,
                src,
                src_size,
                src_min,
                src_max,
                item_size,
            );
            let low = Cell {
                x: if src_min.x < src_max.x { src_min.x } else { src_max.x },
                y: if src_min.y < src_max.y { src_min.y } else { src_max.y },
                z: if src_min.z < src_max.z { src_min.z } else { src_max.z },
            };
            let from = Cell {
                x: low.x + cell.x - dst_min.x,
                y: low.y + cell.y - dst_min.y,
                z: low.z + cell.z - dst_min.z,
            };
            let i = grid::zxy(dst_size, cell) * item_size + j;
            after.len() == dst.len() && after[i] == if voxel_laws::between_corners(
                from,
                src_min,
                src_max,
            ) && voxel_laws::inside(from, src_size) {
                src[grid::zxy(src_size, from) * item_size + j]
            } else {
                dst[i]
            }
        }),
{
    let k = item_size;
    let (lo, hi, to) = funcs::copy_extent(src_min, src_max, src_size, dst_min, dst_size);
    let from = cell.minus(dst_min).plus(src_min.min(src_max));
    let moved = voxel_laws::between_corners(from, src_min, src_max) && voxel_laws::inside(
        from,
        src_size,
    );
    let i = grid::zxy(dst_size, cell) * k + j;
    lemma_byte_index(dst_size, cell, j, k);
    let bytes = funcs::byte_grid(dst_size, k);
    let b = Cell { x: cell.x, y: cell.y * k + j, z: cell.z };
    grid::lemma_cell_at_zxy(bytes, b);
    grid::lemma_zxy_bounds(bytes, b);
    if lo.lt(hi) {
        assert(cell.within(to, to.plus(hi.minus(lo))) <==> moved);
        assert(cell.minus(to).plus(lo) == from);
        if funcs::copies_everything((lo, hi, to), src_size, dst_size) {
            assert(from == cell);
        } else {
            lemma_run(to.y, cell.y, j, k);
            lemma_run(to.y + hi.y - lo.y, cell.y, j, k);
            assert(to.y * k + (hi.y * k - lo.y * k) == (to.y + hi.y - lo.y) * k)
                by (nonlinear_arith);
            assert(cell.y * k + j - to.y * k + lo.y * k == (cell.y - to.y + lo.y) * k + j)
                by (nonlinear_arith);
            let blo = funcs::byte_grid(to, k);
            let bhi = blo.plus(funcs::byte_grid(hi, k).minus(funcs::byte_grid(lo, k)));
            assert(b.within(blo, bhi) <==> moved);
            if moved {
                lemma_byte_index(src_size, from, j, k);
                assert(b.minus(blo).plus(funcs::byte_grid(lo, k)) == (Cell {
                    x: from.x,
                    y: from.y * k + j,
                    z: from.z,
                }));
            }
        }
    } else {
        assert(!moved);
    }
}

/// The bytes of a number stand together; byte `k` of it, counted from the low
/// end, is `k` places from the end at which the machine begins.
pub proof fn numbers_are_stored_byte_by_byte(
    values: Seq<u64>,
    depth: ChannelDepth,
    little: bool,
    i: int,
    k: int,
)
    requires
        0 <= i < values.len(),
        0 <= k < depth.bytes(),
    ensures
        ({
            let width = depth.bytes();
            let bytes = channel::bytes_of(values, width, little);
            let at = i * width + (if little { k } else { width - 1 - k });
            &&& bytes.len() == values.len() * width
            &&& 0 <= at < bytes.len()
            &&& bytes[at] == values[i] as int / pow2((8 * k) as nat) as int % 256
        }),
{
    let width = depth.bytes();
    let o = if little { k } else { width - 1 - k };
    let at = i * width + o;
    vstd::arithmetic::power2::lemma2_to64();
    vstd::arithmetic::power2::lemma2_to64_rest();
    assert(0 <= at < values.len() * width) by (nonlinear_arith)
        requires
            0 <= i < values.len(),
            0 <= o < width,
            at == i * width + o,
    ;
    vstd::arithmetic::div_mod::lemma_fundamental_div_mod_converse(at, width, i, o);
    assert(8 * k == 0 || 8 * k == 8 || 8 * k == 16 || 8 * k == 24 || 8 * k == 32 || 8 * k == 40 || 8
        * k == 48 || 8 * k == 56);
}

/// The default of every channel is a value that its default depth holds.
pub proof fn defaults_fit_their_depths(c: int)
    requires
        0 <= c < MAX_CHANNELS,
    ensures
        ({
            let depth = channel::default_depth(c);
            channel::default_raw(c, depth) as int <= pow2((8 * depth.bytes()) as nat) - 1
        }),
{
    vstd::arithmetic::power2::lemma2_to64();
}

/// Entries are compared as their kinds are: each other way round alike, through
/// a third one, and with themselves, unless they are not numbers. Only numbers
/// can be equal and yet not the same: the two zeros.
pub proof fn equal_entries_are_an_equivalence(
    a: MetadataModel,
    b: MetadataModel,
    c: MetadataModel,
)
    ensures
        metadata::same_metadata(a, b) ==> metadata::same_metadata(b, a),
        metadata::same_metadata(a, b) && metadata::same_metadata(b, c) ==> metadata::same_metadata(
            a,
            c,
        ),
        !(a is Float) ==> (metadata::same_metadata(a, b) <==> a == b),
        a is Float && metadata::same_metadata(a, b) ==> b is Float && metadata::same_metadata(a, a),
        metadata::same_metadata(a, b) && a != b ==> {
            &&& a->Float_0 as int % 0x8000_0000_0000_0000 == 0
            &&& b->Float_0 as int % 0x8000_0000_0000_0000 == 0
        },
        a matches MetadataModel::Float(x) ==> (metadata::same_metadata(a, a) <==> x as int
            % 0x8000_0000_0000_0000 <= 0x7ff0_0000_0000_0000),
        a matches MetadataModel::Float(x) ==> b matches MetadataModel::Float(y) ==> (x as int
            % 0x8000_0000_0000_0000 == 0 && y as int % 0x8000_0000_0000_0000 == 0
            ==> metadata::same_metadata(a, b)),
{
    match a {
        MetadataModel::Float(x) => {
            assert(x & 0x7fff_ffff_ffff_ffff == x % 0x8000_0000_0000_0000) by (bit_vector);
        },
        _ => {},
    }
    match b {
        MetadataModel::Float(x) => {
            assert(x & 0x7fff_ffff_ffff_ffff == x % 0x8000_0000_0000_0000) by (bit_vector);
        },
        _ => {},
    }
}

/// A walk through the metadata meets an entry exactly where a voxel has one, and
/// a walk through an area exactly where the voxel also lies between its corners.
pub proof fn walks_meet_every_entry(
    b: BufferModel,
    visited: Seq<(Vector3i, MetadataValue)>,
    min: Cell,
    max: Cell,
    p: Vector3i,
)
    ensures
        voxel_buffer::visits(b, visited) ==> (b.voxel_metadata.contains_key(p) <==> exists|k: int|
            0 <= k < visited.len() && (#[trigger] visited[k]).0 == p && visited[k].1@
                == b.voxel_metadata[p]),
        voxel_buffer::visits_area(b, visited, min.min(max), min.max(max)) ==> (
        b.voxel_metadata.contains_key(p) && voxel_laws::between_corners(p@, min, max) <==> exists|
            k: int,
        |
            0 <= k < visited.len() && (#[trigger] visited[k]).0 == p && visited[k].1@
                == b.voxel_metadata[p]),
{
    if voxel_buffer::visits(b, visited) && b.voxel_metadata.contains_key(p) {
        let k = choose|k: int| 0 <= k < visited.len() && (#[trigger] visited[k]).0 == p;
        assert(visited[k].0 == p);
    }
    if voxel_buffer::visits_area(b, visited, min.min(max), min.max(max)) {
        assert(p@.within(min.min(max), min.max(max)) <==> voxel_laws::between_corners(
            p@,
            min,
            max,
        ));
        if b.voxel_metadata.contains_key(p) && p@.within(min.min(max), min.max(max)) {
            let k = choose|k: int| 0 <= k < visited.len() && (#[trigger] visited[k]).0 == p;
            assert(visited[k].0 == p);
        }
    }
}

/// The entries that can come next lie between the corners and behind the start:
/// further along Z, or as far and further along X, or as far in both and further
/// along Y.
pub proof fn next_entries_lie_behind_the_start(
    b: BufferModel,
    min: Cell,
    max: Cell,
    start: Vector3i,
    p: Vector3i,
)
    ensures
        voxel_buffer::is_next_candidate(b, min.min(max), min.max(max), start, p)
            <==> b.voxel_metadata.contains_key(p) && voxel_laws::between_corners(p@, min, max) && (
        p.z > start.z || p.z == start.z && (p.x > start.x || p.x == start.x && p.y > start.y)),
{
}

/// A voxel that two others have been combined in has what the function makes of
/// them, the own one first, as far as the depth holds it.
pub proof fn combined_voxels_are_results<F: Fn(u64, u64) -> u64>(
    f: F,
    g: spec_fn(u64, u64) -> u64,
    a: u64,
    b: u64,
    depth: ChannelDepth,
    new: u64,
)
    requires
        forall|x: u64, y: u64, r: u64| #[trigger] call_ensures(f, (x, y), r) ==> r == g(x, y),
        voxel_buffer::combined(f, a, b, depth, new),
    ensures
        new == g(a, b) as int % pow2((8 * depth.bytes()) as nat) as int,
{
    voxel_laws::depths_keep_their_low_bits(depth, g(a, b));
}

/// Four quarter turns are none, and a basis that has been turned less is turned
/// by one more.
pub proof fn four_quarter_turns_are_none(axis: Axis, turns: nat)
    ensures
        OrthoBasis::turns_spec(axis, turns).wf(),
        OrthoBasis::turns_spec(axis, turns + 4) == OrthoBasis::turns_spec(axis, turns),
        turns == 0 ==> forall|c: Cell| #[trigger]
            OrthoBasis::turns_spec(axis, turns).image(c) == c,
        ({
            let b = OrthoBasis::turns_spec(axis, turns);
            let t = OrthoBasis::turns_spec(axis, turns + 1);
            t.x == OrthoBasis::turned(b.x, axis) && t.y == OrthoBasis::turned(b.y, axis) && t.z
                == OrthoBasis::turned(b.z, axis)
        }),
    decreases turns,
{
    reveal_with_fuel(OrthoBasis::turns_spec, 6);
    if turns > 0 {
        four_quarter_turns_are_none(axis, (turns - 1) as nat);
        assert(((turns - 1) as nat + 4 + 1) as nat == (turns + 4) as nat);
        assert(((turns - 1) as nat + 1) as nat == turns);
    }
}

/// A snapshot shows its key as it is: whether there is a block, the revision,
/// and of the block its viewers, its marks and whether it has voxels. It is
/// contradicted exactly where one of these has changed.
pub proof fn snapshots_show_their_key(
    d: DataModel,
    location: BlockLocation,
    lineage: PreviewLineage,
    later: DataModel,
)
    ensures
        ({
            let s = transaction_preview::snapshot_of(d, location, lineage);
            let p = location.position;
            let m = d.lods[location.lod_index as int];
            let n = later.lods[location.lod_index as int];
            &&& s.lineage == lineage && s.location == location
            &&& stale_laws::unchanged_since(m, p, s.revision)
            &&& s.state is Some <==> m.blocks.contains_key(p)
            &&& s.state matches Some(state) ==> {
                &&& state.viewers == m.blocks[p].viewers
                &&& state.modified == m.blocks[p].modified
                &&& state.edited == m.blocks[p].edited
                &&& state.has_voxels == m.blocks[p].voxels is Some
            }
            &&& transaction_preview::snapshot_conflict(later, s) is None <==> {
                &&& n.revision(p) == m.revision(p)
                &&& n.blocks.contains_key(p) == m.blocks.contains_key(p)
                &&& m.blocks.contains_key(p) ==> n.blocks[p].viewers == m.blocks[p].viewers
                    && n.blocks[p].modified == m.blocks[p].modified && n.blocks[p].edited
                    == m.blocks[p].edited && (n.blocks[p].voxels is Some
                    == m.blocks[p].voxels is Some)
            }
        }),
{
}

/// What is expected of a key covers the voxels of its block; a key that is only
/// looked at keeps its revision.
pub proof fn expectations_cover_their_block(d: DataModel, op: OperationModel)
    requires
        boxes::block_bounds_exist(
            boxes::single(op.place().position),
            op.place().lod_index as nat,
        ),
    ensures
        ({
            let place = op.place();
            let e = transaction::expectation_of(d, op);
            let o = transaction::observation_of(d, place);
            let m = d.lods[place.lod_index as int];
            let first = voxel_data_lods::block_origin(place.position, place.lod_index as nat);
            let edge = 16 * pow2(place.lod_index as nat) as int;
            &&& e.bounds.min_pos@ == first
            &&& e.bounds.max_pos@ == first.plus(Cell::splat(edge))
            &&& o.bounds == e.bounds
            &&& o.location == place
            &&& stale_laws::unchanged_since(m, place.position, o.expected_revision)
            &&& o.next_revision == m.revision(place.position)
            &&& o.expected_block_state is Some <==> m.blocks.contains_key(place.position)
        }),
{
    place_laws::blocks_begin_at_their_first_voxel(
        op.place().position,
        op.place().lod_index as nat,
    );
}

/// Setting the viewers of an insertion changes them in the insertion of that
/// block and leaves every other operation as it is.
pub proof fn viewers_are_set_in_one_insertion(
    op: OperationModel,
    location: BlockLocation,
    viewers: u32,
)
    ensures
        ({
            let after = prepared_transaction::viewers_set(op, location, viewers);
            &&& after.place() == op.place()
            &&& after.payload() == op.payload()
            &&& op is Insert <==> after is Insert
            &&& op is Insert && op.place() == location ==> after->Insert_final_viewers == viewers
            &&& !(op is Insert && op.place() == location) ==> after == op
        }),
{
}

} // verus!
