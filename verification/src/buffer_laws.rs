//! What holds of the operations on voxel buffers together.

use crate::buffer_model;
use crate::buffer_model::{BufferModel, ChannelModel};
use crate::channel::{Compression, MAX_CHANNELS};
use crate::depth;
use crate::funcs;
use crate::grid;
use crate::grid::Cell;
use vstd::prelude::*;

verus! {

/// A voxel that has been set reads as its value, as far as the depth holds it.
/// All other voxels keep theirs in the same sense, and other channels stay as
/// they are.
pub proof fn set_voxels_are_read_back(
    b: BufferModel,
    c: int,
    cell: Cell,
    value: u64,
    d: int,
    other: Cell,
)
    requires
        b.wf(),
        0 <= c < MAX_CHANNELS,
        0 <= d < MAX_CHANNELS,
        cell.in_grid(b.size),
        other.in_grid(b.size),
    ensures
        b.voxel_set(c, cell, value).wf(),
        b.voxel_set(c, cell, value).value(d, other) == if d != c {
            b.value(d, other)
        } else if other == cell {
            b.channels[c].depth.truncated(value)
        } else {
            b.channels[c].depth.truncated(b.value(c, other))
        },
{
    let ch = b.channels[c];
    let depth = ch.depth;
    grid::lemma_cell_at_zxy(b.size, cell);
    grid::lemma_cell_at_zxy(b.size, other);
    depth::truncation_is_idempotent(depth, value);
    assert(ch.wf(grid::volume(b.size)));
    let after = b.voxel_set(c, cell, value);
    lemma_dense_wf(ch, grid::volume(b.size));
    assert forall|i: int| 0 <= i < MAX_CHANNELS implies #[trigger] after.channels[i].wf(
        grid::volume(b.size),
    ) by {
        assert(b.channels[i].wf(grid::volume(b.size)));
    }
}

/// Pasting from `src_min` on moves source voxel `s` to `dst_min + (s - src_min)`,
/// as far as the depth holds its value. All other voxels of a selected channel
/// keep theirs in the same sense, and other channels stay as they are.
pub proof fn pasted_voxels_are_moved(
    b: BufferModel,
    src: BufferModel,
    src_min: Cell,
    dst_min: Cell,
    mask: u8,
    c: int,
    cell: Cell,
)
    requires
        b.wf(),
        0 <= c < MAX_CHANNELS,
        cell.in_grid(b.size),
    ensures
        ({
            let s = cell.minus(dst_min).plus(src_min);
            let after = b.voxels_pasted(src, src_min, dst_min, mask).metadata_pasted(
                src,
                src_min,
                dst_min,
            );
            after.value(c, cell) == if !buffer_model::in_mask(mask, c) {
                b.value(c, cell)
            } else if src_min.le(s) && s.in_grid(src.size) {
                b.channels[c].depth.truncated(src.value(c, s))
            } else {
                b.channels[c].depth.truncated(b.value(c, cell))
            }
        }),
{
    let ch = b.channels[c];
    grid::lemma_cell_at_zxy(b.size, cell);
    assert(ch.wf(grid::volume(b.size)));
}

/// A dense channel is well-formed if the channel is.
proof fn lemma_dense_wf(ch: ChannelModel, volume: int)
    requires
        ch.wf(volume),
        volume >= 0,
    ensures
        ch.made_dense(volume).wf(volume),
{
    depth::truncation_is_idempotent(ch.depth, ch.defval);
}

/// A filled channel has the value everywhere, even where its depth does not
/// hold the value.
pub proof fn filled_channels_have_one_value(b: BufferModel, c: int, value: u64, cell: Cell)
    requires
        b.wf(),
        0 <= c < MAX_CHANNELS,
    ensures
        b.filled(c, value).value(c, cell) == value,
        b.filled(c, value).channels[c].all_equal(),
{
}

/// Filling an area of a channel sets the voxels inside, as far as the depth
/// holds the value, and keeps those outside in the same sense.
pub proof fn filled_areas_are_read_back(
    b: BufferModel,
    c: int,
    min: Cell,
    max: Cell,
    value: u64,
    cell: Cell,
)
    requires
        b.wf(),
        0 <= c < MAX_CHANNELS,
        cell.in_grid(b.size),
    ensures
        ({
            let depth = b.channels[c].depth;
            let (lo, hi) = funcs::fill_extent(b.size, min, max);
            let read = b.area_filled(c, min, max, value).value(c, cell);
            depth.truncated(read) == if cell.within(lo, hi) {
                depth.truncated(value)
            } else {
                depth.truncated(b.value(c, cell))
            }
        }),
{
    let ch = b.channels[c];
    let depth = ch.depth;
    let (lo, hi) = funcs::fill_extent(b.size, min, max);
    grid::lemma_cell_at_zxy(b.size, cell);
    depth::truncation_is_idempotent(depth, value);
    depth::truncation_is_idempotent(depth, ch.defval);
    assert(ch.wf(grid::volume(b.size)));
}

/// Storing a channel densely keeps every voxel, as far as the depth holds it.
pub proof fn decompression_keeps_voxels(b: BufferModel, c: int, cell: Cell)
    requires
        b.wf(),
        0 <= c < MAX_CHANNELS,
        cell.in_grid(b.size),
    ensures
        b.decompressed(c).wf(),
        b.decompressed(c).value(c, cell) == b.channels[c].depth.truncated(b.value(c, cell)),
        b.channels[c].compression == Compression::Dense ==> b.decompressed(c) == b,
{
    let ch = b.channels[c];
    grid::lemma_cell_at_zxy(b.size, cell);
    assert(ch.wf(grid::volume(b.size)));
    lemma_dense_wf(ch, grid::volume(b.size));
    let after = b.decompressed(c);
    assert forall|i: int| 0 <= i < MAX_CHANNELS implies #[trigger] after.channels[i].wf(
        grid::volume(b.size),
    ) by {
        assert(b.channels[i].wf(grid::volume(b.size)));
    }
    if ch.compression == Compression::Dense {
        assert(b.decompressed(c).channels =~= b.channels);
    }
}

/// Dropping the values of channels with equal values keeps every voxel, and
/// there is nothing left to drop.
pub proof fn compression_keeps_voxels(b: BufferModel, c: int, cell: Cell)
    requires
        b.wf(),
        0 <= c < MAX_CHANNELS,
        cell.in_grid(b.size),
    ensures
        b.compressed().value(c, cell) == b.value(c, cell),
        b.compressed().compressed() == b.compressed(),
{
    grid::lemma_cell_at_zxy(b.size, cell);
    assert(b.channels[c].wf(grid::volume(b.size)));
    let once = b.compressed();
    assert forall|i: int| 0 <= i < once.channels.len() implies #[trigger] once.channels[i]
        == once.compressed().channels[i] by {
        assert(b.channels[i].wf(grid::volume(b.size)));
    }
    assert(once.compressed().channels =~= once.channels);
}

/// Compressing undoes decompressing a channel whose value its depth holds.
pub proof fn compression_undoes_decompression(b: BufferModel, c: int)
    requires
        b.wf(),
        0 <= c < MAX_CHANNELS,
        grid::volume(b.size) > 0,
        b.channels[c].compression == Compression::Uniform,
        b.channels[c].depth.truncated(b.channels[c].defval) == b.channels[c].defval,
    ensures
        b.decompressed(c).compressed().channels[c] == b.channels[c],
{
    assert(b.channels[c].wf(grid::volume(b.size)));
    let dense = b.decompressed(c).channels[c];
    assert(dense.values.len() > 0);
    assert(dense.compressed().values =~= b.channels[c].values);
}

/// Values moved by a move of cells and then by the move that undoes it are
/// where they were.
proof fn lemma_rearranged_back(
    ch: ChannelModel,
    size: Cell,
    there: spec_fn(Cell) -> Cell,
    back: spec_fn(Cell) -> Cell,
)
    requires
        ch.wf(grid::volume(size)),
        Cell::zero().le(size),
        grid::volume(size) > 0 ==> forall|p: Cell|
            p.in_grid(size) ==> (#[trigger] back(p)).in_grid(size) && there(back(p)) == p,
    ensures
        ch.rearranged(size, there).rearranged(size, back) == ch,
{
    if ch.compression == Compression::Dense {
        grid::lemma_volume_sign(size);
        let moved = ch.rearranged(size, there);
        let again = moved.rearranged(size, back);
        assert forall|i: int| 0 <= i < ch.values.len() implies again.values[i] == ch.values[i] by {
            grid::lemma_zxy_cell_at(size, i);
            let p = grid::cell_at(size, i);
            assert(back(p).in_grid(size));
            grid::lemma_cell_at_zxy(size, back(p));
        }
        assert(again.values =~= ch.values);
    }
}

/// Mirroring twice along the same axis changes nothing.
pub proof fn mirroring_twice_changes_nothing(b: BufferModel, c: int, axis: int)
    requires
        b.wf(),
        0 <= c < MAX_CHANNELS,
    ensures
        b.mirrored(c, axis).mirrored(c, axis) == b,
{
    assert(b.channels[c].wf(grid::volume(b.size)));
    lemma_rearranged_back(
        b.channels[c],
        b.size,
        |p: Cell| buffer_model::mirrored(b.size, axis, p),
        |p: Cell| buffer_model::mirrored(b.size, axis, p),
    );
    assert(b.mirrored(c, axis).mirrored(c, axis).channels =~= b.channels);
}

/// A quarter turn and one in the other direction change nothing.
pub proof fn turning_back_changes_nothing(b: BufferModel, c: int, axis: int, clockwise: bool)
    requires
        b.wf(),
        0 <= c < MAX_CHANNELS,
        buffer_model::square_around(b.size, axis),
    ensures
        b.rotated(c, axis, clockwise).rotated(c, axis, !clockwise) == b,
{
    assert(b.channels[c].wf(grid::volume(b.size)));
    lemma_rearranged_back(
        b.channels[c],
        b.size,
        |p: Cell| buffer_model::rotated(b.size, axis, !clockwise, p),
        |p: Cell| buffer_model::rotated(b.size, axis, clockwise, p),
    );
    let back = |p: Cell| buffer_model::rotated(b.size, axis, !!clockwise, p);
    assert(back =~= (|p: Cell| buffer_model::rotated(b.size, axis, clockwise, p)));
    assert(b.rotated(c, axis, clockwise).rotated(c, axis, !clockwise).channels =~= b.channels);
}

/// Values moved by two moves of cells are moved by the one that does both.
proof fn lemma_rearranged_twice(
    ch: ChannelModel,
    size: Cell,
    first: spec_fn(Cell) -> Cell,
    second: spec_fn(Cell) -> Cell,
)
    requires
        ch.wf(grid::volume(size)),
        Cell::zero().le(size),
        grid::volume(size) > 0 ==> forall|p: Cell|
            p.in_grid(size) ==> (#[trigger] second(p)).in_grid(size),
    ensures
        ch.rearranged(size, first).rearranged(size, second) == ch.rearranged(
            size,
            |p: Cell| first(second(p)),
        ),
{
    if ch.compression == Compression::Dense {
        grid::lemma_volume_sign(size);
        let twice = ch.rearranged(size, first).rearranged(size, second);
        let once = ch.rearranged(size, |p: Cell| first(second(p)));
        assert forall|i: int| 0 <= i < ch.values.len() implies twice.values[i]
            == once.values[i] by {
            grid::lemma_zxy_cell_at(size, i);
            let p = grid::cell_at(size, i);
            assert(second(p).in_grid(size));
            grid::lemma_cell_at_zxy(size, second(p));
        }
        assert(twice.values =~= once.values);
    }
}

/// A channel with its values moved is well-formed if the channel is.
proof fn lemma_rearranged_wf(ch: ChannelModel, size: Cell, from: spec_fn(Cell) -> Cell)
    requires
        ch.wf(grid::volume(size)),
        Cell::zero().le(size),
        grid::volume(size) > 0 ==> forall|p: Cell|
            p.in_grid(size) ==> (#[trigger] from(p)).in_grid(size),
    ensures
        ch.rearranged(size, from).wf(grid::volume(size)),
{
    if ch.compression == Compression::Dense {
        grid::lemma_volume_sign(size);
        let moved = ch.rearranged(size, from);
        assert forall|i: int| 0 <= i < moved.values.len() implies moved.depth.truncated(
            #[trigger] moved.values[i],
        ) == moved.values[i] by {
            grid::lemma_zxy_cell_at(size, i);
            let p = from(grid::cell_at(size, i));
            assert(p.in_grid(size));
            grid::lemma_cell_at_zxy(size, p);
            assert(moved.values[i] == ch.values[grid::zxy(size, p)]);
        }
    }
}

/// Four quarter turns in the same direction change nothing.
pub proof fn four_turns_change_nothing(b: BufferModel, c: int, axis: int, clockwise: bool)
    requires
        b.wf(),
        0 <= c < MAX_CHANNELS,
        buffer_model::square_around(b.size, axis),
    ensures
        b.rotated(c, axis, clockwise).rotated(c, axis, clockwise).rotated(
            c,
            axis,
            clockwise,
        ).rotated(c, axis, clockwise) == b,
{
    let ch = b.channels[c];
    assert(ch.wf(grid::volume(b.size)));
    let turn = |p: Cell| buffer_model::rotated(b.size, axis, !clockwise, p);
    let half = |p: Cell| turn(turn(p));
    lemma_rearranged_wf(ch, b.size, turn);
    lemma_rearranged_wf(ch.rearranged(b.size, turn), b.size, turn);
    lemma_rearranged_twice(ch, b.size, turn, turn);
    lemma_rearranged_twice(ch.rearranged(b.size, turn).rearranged(b.size, turn), b.size, turn, turn);
    lemma_rearranged_back(ch, b.size, half, half);
    assert(b.rotated(c, axis, clockwise).rotated(c, axis, clockwise).rotated(
        c,
        axis,
        clockwise,
    ).rotated(c, axis, clockwise).channels =~= b.channels);
}

/// A quarter turn moves every voxel of the channel to the turned cell, and
/// moves no two to the same: the turn back gives the cell again. The coordinate
/// along the axis stays. Extent, metadata and the other channels stay too.
pub proof fn turned_voxels_are_moved(
    b: BufferModel,
    c: int,
    axis: int,
    clockwise: bool,
    cell: Cell,
    d: int,
)
    requires
        b.wf(),
        0 <= c < MAX_CHANNELS,
        0 <= d < MAX_CHANNELS,
        buffer_model::square_around(b.size, axis),
        cell.in_grid(b.size),
    ensures
        ({
            let after = b.rotated(c, axis, clockwise);
            let to = buffer_model::rotated(b.size, axis, clockwise, cell);
            &&& after.wf()
            &&& to.in_grid(b.size)
            &&& buffer_model::rotated(b.size, axis, !clockwise, to) == cell
            &&& after.value(c, to) == b.value(c, cell)
            &&& axis == 0 ==> to.x == cell.x
            &&& axis == 1 ==> to.y == cell.y
            &&& axis != 0 && axis != 1 ==> to.z == cell.z
            &&& axis == 2 && clockwise ==> to == (Cell {
                x: b.size.x - 1 - cell.y,
                y: cell.x,
                z: cell.z,
            })
            &&& after.size == b.size
            &&& after.voxel_metadata == b.voxel_metadata
            &&& after.block_metadata == b.block_metadata
            &&& d != c ==> after.channels[d] == b.channels[d]
        }),
{
    let ch = b.channels[c];
    let after = b.rotated(c, axis, clockwise);
    let to = buffer_model::rotated(b.size, axis, clockwise, cell);
    let volume = grid::volume(b.size);
    assert(ch.wf(volume));
    grid::lemma_cell_at_zxy(b.size, to);
    lemma_rearranged_wf(
        ch,
        b.size,
        |p: Cell| buffer_model::rotated(b.size, axis, !clockwise, p),
    );
    assert forall|i: int| 0 <= i < MAX_CHANNELS implies #[trigger] after.channels[i].wf(volume) by {
        assert(b.channels[i].wf(volume));
    }
}

/// A new extent leaves nothing of the old content: every voxel has the default
/// of its channel, and no metadata is left. Depths stay.
pub proof fn created_buffers_are_empty(b: BufferModel, size: Cell, c: int, cell: Cell)
    requires
        b.wf(),
        0 <= c < MAX_CHANNELS,
    ensures
        b.created(size).channels[c].depth == b.channels[c].depth,
        b.created(size).value(c, cell) == crate::channel::default_raw(c, b.channels[c].depth),
        b.created(size).voxel_metadata.dom().is_empty(),
{
}

/// A downscale takes every voxel of the destination box from the source, as far
/// as the depth holds it, and keeps the others in the same sense.
pub proof fn downscaled_voxels_are_samples(
    dst: BufferModel,
    src: BufferModel,
    src_min: Cell,
    src_max: Cell,
    dst_min: Cell,
    c: int,
    cell: Cell,
)
    requires
        dst.wf(),
        src.wf(),
        0 <= c < MAX_CHANNELS,
        cell.in_grid(dst.size),
    ensures
        ({
            let extent = buffer_model::downscale_extent(
                src.size,
                dst.size,
                src_min,
                src_max,
                dst_min,
            );
            let (lo, hi) = funcs::fill_extent(dst.size, extent.1, extent.2);
            let depth = dst.channels[c].depth;
            let read = dst.downscaled_from(src, src_min, src_max, dst_min).value(c, cell);
            depth.truncated(read) == depth.truncated(
                if cell.within(lo, hi) {
                    src.value(c, buffer_model::downscale_source(extent, cell))
                } else {
                    dst.value(c, cell)
                },
            )
        }),
{
    let extent = buffer_model::downscale_extent(src.size, dst.size, src_min, src_max, dst_min);
    let ch = dst.channels[c];
    let from = src.value(c, buffer_model::downscale_source(extent, cell));
    grid::lemma_cell_at_zxy(dst.size, cell);
    depth::truncation_is_idempotent(ch.depth, from);
    depth::truncation_is_idempotent(ch.depth, ch.defval);
    assert(ch.wf(grid::volume(dst.size)));
    assert(src.channels[c].wf(grid::volume(src.size)));
}

/// A downscale keeps the extent and the depths of the destination, and leaves it
/// well-formed.
pub proof fn downscaled_buffers_keep_their_shape(
    dst: BufferModel,
    src: BufferModel,
    src_min: Cell,
    src_max: Cell,
    dst_min: Cell,
)
    requires
        dst.wf(),
    ensures
        ({
            let after = dst.downscaled_from(src, src_min, src_max, dst_min);
            &&& after.wf()
            &&& after.size == dst.size
            &&& forall|c: int|
                0 <= c < MAX_CHANNELS ==> (#[trigger] after.channels[c]).depth
                    == dst.channels[c].depth
        }),
{
    let after = dst.downscaled_from(src, src_min, src_max, dst_min);
    let volume = grid::volume(dst.size);
    grid::lemma_volume_sign(dst.size);
    assert forall|c: int| 0 <= c < MAX_CHANNELS implies #[trigger] after.channels[c].wf(volume)
        && after.channels[c].depth == dst.channels[c].depth by {
        let ch = dst.channels[c];
        assert(ch.wf(volume));
        lemma_dense_wf(ch, volume);
        let dense = ch.made_dense(volume);
        let now = after.channels[c];
        if now.compression == Compression::Dense {
            assert forall|i: int| 0 <= i < volume implies now.depth.truncated(
                #[trigger] now.values[i],
            ) == now.values[i] by {
                let extent = buffer_model::downscale_extent(
                    src.size,
                    dst.size,
                    src_min,
                    src_max,
                    dst_min,
                );
                depth::truncation_is_idempotent(
                    ch.depth,
                    src.value(
                        c,
                        buffer_model::downscale_source(extent, grid::cell_at(dst.size, i)),
                    ),
                );
                assert(ch.depth.truncated(dense.values[i]) == dense.values[i]);
            }
        }
    }
}

} // verus!
