//! What the operations on voxel buffers do to a single voxel, told in
//! coordinates.

use crate::buffer_laws;
use crate::buffer_model::BufferModel;
use crate::channel;
use crate::channel::{Compression, MAX_CHANNELS};
use crate::depth;
use crate::depth::ChannelDepth;
use crate::funcs;
use crate::grid;
use crate::grid::Cell;
use crate::math::{Axis, OrthoBasis, Vector3i};
use crate::metadata::MetadataModel;
use vstd::arithmetic::power2::pow2;
use vstd::prelude::*;

verus! {

/// `v` is reached on the way from the smaller of two numbers up to the larger
/// one, which is not reached itself.
pub open spec fn between(v: int, a: int, b: int) -> bool {
    a <= v < b || b <= v < a
}

/// `c` lies in the box between two opposite corners, whichever they are.
pub open spec fn between_corners(c: Cell, a: Cell, b: Cell) -> bool {
    between(c.x, a.x, b.x) && between(c.y, a.y, b.y) && between(c.z, a.z, b.z)
}

/// `c` has no negative coordinate, and each is below that of `size`.
pub open spec fn inside(c: Cell, size: Cell) -> bool {
    0 <= c.x < size.x && 0 <= c.y < size.y && 0 <= c.z < size.z
}

/// Filling an area gives the value to the voxels between the corners and to no
/// others. The other channels, the extent and the metadata stay.
pub proof fn areas_are_filled_between_their_corners(
    b: BufferModel,
    c: int,
    min: Cell,
    max: Cell,
    value: u64,
    cell: Cell,
    d: int,
)
    requires
        b.wf(),
        0 <= c < MAX_CHANNELS,
        0 <= d < MAX_CHANNELS,
        inside(cell, b.size),
    ensures
        ({
            let after = b.area_filled(c, min, max, value);
            let depth = b.channels[c].depth;
            &&& depth.truncated(after.value(c, cell)) == depth.truncated(
                if between_corners(cell, min, max) {
                    value
                } else {
                    b.value(c, cell)
                },
            )
            &&& after.channels[c].depth == depth
            &&& d != c ==> after.channels[d] == b.channels[d]
            &&& after.size == b.size
            &&& after.block_metadata == b.block_metadata
            &&& after.voxel_metadata == b.voxel_metadata
        }),
{
    buffer_laws::filled_areas_are_read_back(b, c, min, max, value, cell);
}

/// Filling a box of an array gives the value to the elements of the cells
/// between the corners and to no others of the grid.
pub proof fn arrays_are_filled_between_the_corners<T>(
    dst: Seq<T>,
    size: Cell,
    min: Cell,
    max: Cell,
    value: T,
    cell: Cell,
)
    requires
        dst.len() == grid::volume(size),
        inside(cell, size),
    ensures
        ({
            let i = grid::zxy(size, cell);
            funcs::filled(dst, size, min, max, value).len() == dst.len() && funcs::filled(
                dst,
                size,
                min,
                max,
                value,
            )[i] == if between_corners(cell, min, max) {
                value
            } else {
                dst[i]
            }
        }),
{
    grid::lemma_cell_at_zxy(size, cell);
    grid::lemma_zxy_bounds(size, cell);
}

/// Copying an area moves every voxel between the corners, wherever both buffers
/// have the voxel, so that the lower corner comes to lie at `dst_min`. Nothing
/// else changes.
pub proof fn areas_are_copied_where_both_have_voxels(
    b: BufferModel,
    src: BufferModel,
    c: int,
    src_min: Cell,
    src_max: Cell,
    dst_min: Cell,
    cell: Cell,
)
    requires
        b.wf(),
        src.wf(),
        0 <= c < MAX_CHANNELS,
        b.channels[c].depth == src.channels[c].depth,
        inside(cell, b.size),
    ensures
        ({
            let after = b.with_channel(
                c,
                b.channels[c].area_copied(
                    b.size,
                    src.channels[c],
                    src.size,
                    src_min,
                    src_max,
                    dst_min,
                ),
            );
            let low = Cell {
                x: if src_min.x < src_max.x { src_min.x } else { src_max.x },
                y: if src_min.y < src_max.y { src_min.y } else { src_max.y },
                z: if src_min.z < src_max.z { src_min.z } else { src_max.z },
            };
            let from = Cell {
                x: low.x + cell.x - dst_min.x,
                y: low.y + cell.y - dst_min.y,
                z: low.z + cell.z - dst_min.z,
            };
            let depth = b.channels[c].depth;
            &&& depth.truncated(after.value(c, cell)) == depth.truncated(
                if between_corners(from, src_min, src_max) && inside(from, src.size) {
                    src.value(c, from)
                } else {
                    b.value(c, cell)
                },
            )
            &&& after.channels[c].depth == depth
        }),
{
    let ch = b.channels[c];
    let (lo, hi, to) = funcs::copy_extent(src_min, src_max, src.size, dst_min, b.size);
    let from = cell.minus(dst_min).plus(src_min.min(src_max));
    assert(ch.wf(grid::volume(b.size)));
    assert(src.channels[c].wf(grid::volume(src.size)));
    grid::lemma_cell_at_zxy(b.size, cell);
    grid::lemma_zxy_bounds(b.size, cell);
    depth::truncation_is_idempotent(ch.depth, ch.defval);
    if lo.lt(hi) {
        assert(cell.within(to, to.plus(hi.minus(lo))) <==> between_corners(from, src_min, src_max)
            && inside(from, src.size));
        assert(cell.minus(to).plus(lo) == from);
        if src.channels[c].compression == Compression::Uniform {
            areas_are_filled_between_their_corners(
                b,
                c,
                to,
                to.plus(hi.minus(lo)),
                src.channels[c].defval,
                cell,
                c,
            );
        }
    } else {
        assert(!(between_corners(from, src_min, src_max) && inside(from, src.size)));
    }
}

/// Mirroring moves every voxel of the channel to the other side along the axis:
/// as far from one end of the buffer as it was from the other. The other
/// channels, the extent and the metadata stay.
pub proof fn mirrored_voxels_change_sides(b: BufferModel, c: int, axis: int, cell: Cell, d: int)
    requires
        b.wf(),
        0 <= c < MAX_CHANNELS,
        0 <= d < MAX_CHANNELS,
        0 <= axis < 3,
        inside(cell, b.size),
    ensures
        ({
            let after = b.mirrored(c, axis);
            &&& forall|to: Cell|
                to.x + cell.x == (if axis == 0 { b.size.x - 1 } else { 2 * cell.x }) && to.y
                    + cell.y == (if axis == 1 { b.size.y - 1 } else { 2 * cell.y }) && to.z
                    + cell.z == (if axis == 2 { b.size.z - 1 } else { 2 * cell.z }) ==> inside(
                    to,
                    b.size,
                ) && #[trigger] after.value(c, to) == b.value(c, cell)
            &&& d != c ==> after.channels[d] == b.channels[d]
            &&& after.channels[c].depth == b.channels[c].depth
            &&& after.size == b.size
            &&& after.block_metadata == b.block_metadata
            &&& after.voxel_metadata == b.voxel_metadata
        }),
{
    assert(b.channels[c].wf(grid::volume(b.size)));
    let to = crate::buffer_model::mirrored(b.size, axis, cell);
    grid::lemma_cell_at_zxy(b.size, to);
    grid::lemma_zxy_bounds(b.size, to);
}

/// A quarter turn around an axis looks clockwise, or the other way round, from
/// the far end of it: what lay along one axis of the plane comes to lie along
/// the next one, counted from the end it turns away from.
pub proof fn quarter_turns_carry_axes_on(b: BufferModel, c: int, cell: Cell)
    requires
        b.wf(),
        0 <= c < MAX_CHANNELS,
        b.size.x == b.size.y == b.size.z,
        inside(cell, b.size),
    ensures
        ({
            let (x, y, z) = (cell.x, cell.y, cell.z);
            let last = b.size.x - 1;
            let v = b.value(c, cell);
            &&& b.rotated(c, 0, true).value(c, Cell { x, y: last - z, z: y }) == v
            &&& b.rotated(c, 1, true).value(c, Cell { x: last - z, y, z: x }) == v
            &&& b.rotated(c, 2, true).value(c, Cell { x: last - y, y: x, z }) == v
            &&& b.rotated(c, 0, false).value(c, Cell { x, y: z, z: last - y }) == v
            &&& b.rotated(c, 1, false).value(c, Cell { x: z, y, z: last - x }) == v
            &&& b.rotated(c, 2, false).value(c, Cell { x: y, y: last - x, z }) == v
        }),
{
    buffer_laws::turned_voxels_are_moved(b, c, 0, true, cell, c);
    buffer_laws::turned_voxels_are_moved(b, c, 1, true, cell, c);
    buffer_laws::turned_voxels_are_moved(b, c, 2, true, cell, c);
    buffer_laws::turned_voxels_are_moved(b, c, 0, false, cell, c);
    buffer_laws::turned_voxels_are_moved(b, c, 1, false, cell, c);
    buffer_laws::turned_voxels_are_moved(b, c, 2, false, cell, c);
}

/// A downscale from a box inside the source takes every second voxel on each
/// axis, from the lower corner on, and puts them side by side from `dst_min`
/// on. All other voxels stay.
pub proof fn downscales_take_every_second_voxel(
    dst: BufferModel,
    src: BufferModel,
    src_min: Cell,
    src_max: Cell,
    dst_min: Cell,
    c: int,
    cell: Cell,
)
    requires
        dst.wf(),
        src.wf(),
        0 <= c < MAX_CHANNELS,
        inside(cell, dst.size),
        inside(src_min, src.size),
        src_min.le(src_max),
        src_max.le(src.size),
        inside(dst_min, dst.size),
    ensures
        ({
            let after = dst.downscaled_from(src, src_min, src_max, dst_min);
            let from = Cell {
                x: src_min.x + 2 * (cell.x - dst_min.x),
                y: src_min.y + 2 * (cell.y - dst_min.y),
                z: src_min.z + 2 * (cell.z - dst_min.z),
            };
            let depth = dst.channels[c].depth;
            depth.truncated(after.value(c, cell)) == depth.truncated(
                if src_min.x <= from.x < src_max.x - 1 && src_min.y <= from.y < src_max.y - 1
                    && src_min.z <= from.z < src_max.z - 1 {
                    src.value(c, from)
                } else {
                    dst.value(c, cell)
                },
            )
        }),
{
    buffer_laws::downscaled_voxels_are_samples(dst, src, src_min, src_max, dst_min, c, cell);
    let extent = crate::buffer_model::downscale_extent(
        src.size,
        dst.size,
        src_min,
        src_max,
        dst_min,
    );
    let from = crate::buffer_model::downscale_source(extent, cell);
    assert(extent.0 == src_min);
    assert(extent.1 == dst_min);
    assert(from.x == src_min.x + 2 * (cell.x - dst_min.x));
    assert(from.y == src_min.y + 2 * (cell.y - dst_min.y));
    assert(from.z == src_min.z + 2 * (cell.z - dst_min.z));
}

/// Pasting a buffer changes the voxels of the channels whose bit the mask has
/// and of no others: voxel `s` of the source comes to lie at
/// `dst_min + (s - src_min)`. Extent and depths stay.
pub proof fn pastes_fill_the_selected_channels(
    b: BufferModel,
    src: BufferModel,
    src_min: Cell,
    dst_min: Cell,
    mask: u8,
    c: int,
    cell: Cell,
)
    requires
        b.wf(),
        0 <= c < MAX_CHANNELS,
        inside(cell, b.size),
    ensures
        ({
            let after = b.voxels_pasted(src, src_min, dst_min, mask);
            let s = Cell {
                x: src_min.x + cell.x - dst_min.x,
                y: src_min.y + cell.y - dst_min.y,
                z: src_min.z + cell.z - dst_min.z,
            };
            let depth = b.channels[c].depth;
            let selected = mask as int / pow2(c as nat) as int % 2 == 1;
            &&& !selected ==> after.channels[c] == b.channels[c]
            &&& selected && dst_min.le(cell) && inside(s, src.size) ==> after.value(c, cell)
                == depth.truncated(src.value(c, s))
            &&& selected && !(dst_min.le(cell) && inside(s, src.size)) ==> depth.truncated(
                after.value(c, cell),
            ) == depth.truncated(b.value(c, cell))
            &&& after.channels[c].depth == depth
            &&& after.size == b.size
            &&& after.voxel_metadata == b.voxel_metadata
            &&& after.block_metadata == b.block_metadata
        }),
{
    buffer_laws::pasted_voxels_are_moved(b, src, src_min, dst_min, mask, c, cell);
    depth::truncation_is_idempotent(b.channels[c].depth, b.value(c, cell));
    let s = cell.minus(dst_min).plus(src_min);
    assert(s == Cell {
        x: src_min.x + cell.x - dst_min.x,
        y: src_min.y + cell.y - dst_min.y,
        z: src_min.z + cell.z - dst_min.z,
    });
    lemma_mask_bit(mask, c);
}

/// A mask has the bit of a channel where the channel's power of two is one of
/// those that make it up.
proof fn lemma_mask_bit(mask: u8, c: int)
    requires
        0 <= c < MAX_CHANNELS,
    ensures
        crate::buffer_model::in_mask(mask, c) <==> mask as int / pow2(c as nat) as int % 2 == 1,
{
    vstd::arithmetic::power2::lemma2_to64();
    let k = c as u8;
    assert((mask >> 0u8) & 1 == mask / 1 % 2 && (mask >> 1u8) & 1 == mask / 2 % 2 && (mask >> 2u8)
        & 1 == mask / 4 % 2 && (mask >> 3u8) & 1 == mask / 8 % 2 && (mask >> 4u8) & 1 == mask / 16
        % 2 && (mask >> 5u8) & 1 == mask / 32 % 2 && (mask >> 6u8) & 1 == mask / 64 % 2 && (mask
        >> 7u8) & 1 == mask / 128 % 2) by (bit_vector);
    assert(k == 0 || k == 1 || k == 2 || k == 3 || k == 4 || k == 5 || k == 6 || k == 7);
}

/// Pasted metadata goes where its voxel goes. Metadata at places that the paste
/// does not reach, or to which it brings none, stays, and so do the voxels.
pub proof fn pasted_metadata_goes_with_its_voxel(
    b: BufferModel,
    src: BufferModel,
    src_min: Cell,
    dst_min: Cell,
    p: Vector3i,
    q: Vector3i,
)
    requires
        b.wf(),
        src.wf(),
        p.x - dst_min.x == q.x - src_min.x,
        p.y - dst_min.y == q.y - src_min.y,
        p.z - dst_min.z == q.z - src_min.z,
    ensures
        ({
            let after = b.metadata_pasted(src, src_min, dst_min);
            let brought = inside(p@, b.size) && dst_min.le(p@) && q.x < src.size.x && q.y
                < src.size.y && q.z < src.size.z && src.voxel_metadata.contains_key(q);
            &&& brought ==> after.voxel_metadata.contains_key(p) && after.voxel_metadata[p]
                == src.voxel_metadata[q]
            &&& !brought ==> (after.voxel_metadata.contains_key(p)
                <==> b.voxel_metadata.contains_key(p))
            &&& !brought && b.voxel_metadata.contains_key(p) ==> after.voxel_metadata[p]
                == b.voxel_metadata[p]
            &&& after.channels == b.channels
            &&& after.size == b.size
            &&& after.block_metadata == b.block_metadata
        }),
{
    assert(Vector3i::from_cell(p@.minus(dst_min).plus(src_min)) == q);
}

/// Giving a channel another depth leaves its default in every voxel; giving it
/// the depth that it has changes nothing. The other channels stay.
pub proof fn another_depth_empties_the_channel(
    b: BufferModel,
    c: int,
    depth: ChannelDepth,
    cell: Cell,
    d: int,
)
    requires
        b.wf(),
        0 <= c < MAX_CHANNELS,
        0 <= d < MAX_CHANNELS,
    ensures
        ({
            let after = b.depth_set(c, depth);
            &&& after.channels[c].depth == depth
            &&& depth == b.channels[c].depth ==> after == b
            &&& depth != b.channels[c].depth ==> after.value(c, cell) == channel::default_raw(
                c,
                depth,
            )
            &&& d != c ==> after.channels[d] == b.channels[d]
            &&& after.size == b.size
            &&& after.block_metadata == b.block_metadata
            &&& after.voxel_metadata == b.voxel_metadata
        }),
{
}

/// Compressing leaves a channel uniform if and only if no two of its voxels
/// differ.
pub proof fn compressed_channels_are_uniform_where_voxels_agree(b: BufferModel, c: int)
    requires
        b.wf(),
        0 <= c < MAX_CHANNELS,
        inside(Cell::zero(), b.size),
    ensures
        b.compressed().channels[c].compression == Compression::Uniform <==> forall|p: Cell, q: Cell|
            inside(p, b.size) && inside(q, b.size) ==> #[trigger] b.value(c, p)
                == #[trigger] b.value(c, q),
{
    let ch = b.channels[c];
    let volume = grid::volume(b.size);
    assert(ch.wf(volume));
    if ch.compression == Compression::Dense {
        if ch.all_equal() {
            assert forall|p: Cell, q: Cell| inside(p, b.size) && inside(q, b.size) implies
                #[trigger] b.value(c, p) == #[trigger] b.value(c, q) by {
                grid::lemma_zxy_bounds(b.size, p);
                grid::lemma_zxy_bounds(b.size, q);
            }
        } else {
            let (i, j) = choose|i: int, j: int|
                0 <= i < ch.values.len() && 0 <= j < ch.values.len() && #[trigger] ch.values[i]
                    != #[trigger] ch.values[j];
            grid::lemma_zxy_cell_at(b.size, i);
            grid::lemma_zxy_cell_at(b.size, j);
            let p = grid::cell_at(b.size, i);
            let q = grid::cell_at(b.size, j);
            assert(b.value(c, p) != b.value(c, q));
        }
    }
}

/// Voxels are stored column by column: the next one along Y comes next, the
/// next one along X after a column, and the next one along Z after a layer.
pub proof fn voxels_are_stored_in_columns(size: Cell, c: Cell)
    requires
        0 < size.x,
        0 < size.y,
        0 < size.z,
    ensures
        grid::zxy(size, Cell::zero()) == 0,
        grid::zxy(size, Cell { y: c.y + 1, ..c }) == grid::zxy(size, c) + 1,
        grid::zxy(size, Cell { x: c.x + 1, ..c }) == grid::zxy(size, c) + size.y,
        grid::zxy(size, Cell { z: c.z + 1, ..c }) == grid::zxy(size, c) + size.x * size.y,
{
    assert(size.y * (0 + size.x * 0) == 0) by (nonlinear_arith);
    assert(size.y * (c.x + 1 + size.x * c.z) == size.y * (c.x + size.x * c.z) + size.y)
        by (nonlinear_arith);
    assert(size.y * (c.x + size.x * (c.z + 1)) == size.y * (c.x + size.x * c.z) + size.x * size.y)
        by (nonlinear_arith);
}

/// A depth keeps as many low bits of a value as its bytes have.
pub proof fn depths_keep_their_low_bits(depth: ChannelDepth, value: u64)
    ensures
        depth.bytes() == 1 || depth.bytes() == 2 || depth.bytes() == 4 || depth.bytes() == 8,
        depth.truncated(value) == value as int % pow2((8 * depth.bytes()) as nat) as int,
{
    vstd::arithmetic::power2::lemma2_to64();
    match depth {
        ChannelDepth::Bit8 => assert(pow2(8) == 0x100),
        ChannelDepth::Bit16 => assert(pow2(16) == 0x1_0000),
        ChannelDepth::Bit32 => assert(pow2(32) == 0x1_0000_0000),
        ChannelDepth::Bit64 => {
            assert(pow2(64) == 0x1_0000_0000_0000_0000);
            vstd::arithmetic::div_mod::lemma_small_mod(value as nat, pow2(64));
        },
    }
}

/// A turned array has the element of every cell at the turned cell. One step
/// along an axis before the turn is one step along the basis vector of that
/// axis after it.
pub proof fn turned_arrays_follow_their_basis<T>(
    src: Seq<T>,
    size: Cell,
    basis: OrthoBasis,
    c: Cell,
)
    requires
        basis.wf(),
        src.len() == grid::volume(size),
        inside(c, size),
    ensures
        ({
            let dst_size = funcs::turned_size(basis, size);
            let to = funcs::turned_cell(basis, size, c);
            let x = funcs::turned_cell(basis, size, Cell { x: c.x + 1, ..c });
            let y = funcs::turned_cell(basis, size, Cell { y: c.y + 1, ..c });
            let z = funcs::turned_cell(basis, size, Cell { z: c.z + 1, ..c });
            &&& inside(to, dst_size)
            &&& funcs::transformed(src, size, basis)[grid::zxy(dst_size, to)]
                == src[grid::zxy(size, c)]
            &&& x == to.plus(basis.x@)
            &&& y == to.plus(basis.y@)
            &&& z == to.plus(basis.z@)
        }),
{
    funcs::turning_is_a_bijection(basis, size);
    let to = funcs::turned_cell(basis, size, c);
    let dst_size = funcs::turned_size(basis, size);
    grid::lemma_cell_at_zxy(dst_size, to);
    grid::lemma_zxy_bounds(dst_size, to);
}

/// A quarter turn keeps a vector's part along the axis and turns the rest by a
/// right angle, from X towards Y, from Y towards Z or from Z towards X.
pub proof fn quarter_turns_are_right_angles(v: Vector3i, axis: Axis)
    requires
        i32::MIN < v.x,
        i32::MIN < v.y,
        i32::MIN < v.z,
    ensures
        ({
            let t = OrthoBasis::turned(v, axis);
            let (along, u, w, turned_along, tu, tw) = match axis {
                Axis::X => (v.x, v.y, v.z, t.x, t.y, t.z),
                Axis::Y => (v.y, v.z, v.x, t.y, t.z, t.x),
                Axis::Z => (v.z, v.x, v.y, t.z, t.x, t.y),
            };
            &&& turned_along == along
            &&& u * tu + w * tw == 0
            &&& u * tw - w * tu == u * u + w * w
        }),
{
    let (u, w): (int, int) = match axis {
        Axis::X => (v.y as int, v.z as int),
        Axis::Y => (v.z as int, v.x as int),
        Axis::Z => (v.x as int, v.y as int),
    };
    assert(u * (-w) + w * u == 0) by (nonlinear_arith);
    assert(u * u - w * (-w) == u * u + w * w) by (nonlinear_arith);
}

/// A new buffer has no voxels and no metadata, and the defaults of its channels.
/// A new extent keeps the depths and puts the defaults everywhere, without
/// metadata.
pub proof fn new_buffers_hold_nothing(b: BufferModel, size: Cell, c: int, cell: Cell)
    requires
        b.wf(),
        0 <= c < MAX_CHANNELS,
    ensures
        ({
            let after = b.created(size);
            let fresh = BufferModel::fresh(b.allocator);
            &&& after.size == size
            &&& after.channels.len() == MAX_CHANNELS
            &&& after.channels[c].compression == Compression::Uniform
            &&& after.block_metadata == MetadataModel::Nil
            &&& after.allocator == b.allocator
            &&& fresh.size == Cell::zero()
            &&& fresh.channels[c].compression == Compression::Uniform
            &&& fresh.value(c, cell) == channel::default_raw(c, fresh.channels[c].depth)
            &&& fresh.block_metadata == MetadataModel::Nil
            &&& fresh.voxel_metadata.dom().is_empty()
        }),
{
}

} // verus!
