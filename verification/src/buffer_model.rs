//! The mathematical model of a voxel buffer, and what each operation makes of it.

use crate::channel;
use crate::channel::{Allocator, Compression};
use crate::depth::ChannelDepth;
use crate::funcs;
use crate::grid;
use crate::grid::Cell;
use crate::math::Vector3i;
use crate::metadata::MetadataModel;
use vstd::prelude::*;

verus! {

/// One channel: a single value for every voxel, or one value each in ZXY order.
#[verifier::ext_equal]
pub struct ChannelModel {
    pub depth: ChannelDepth,
    pub compression: Compression,
    pub defval: u64,
    pub values: Seq<u64>,
}

/// A buffer: its extent, its channels and its metadata.
#[verifier::ext_equal]
pub struct BufferModel {
    pub size: Cell,
    pub channels: Seq<ChannelModel>,
    pub allocator: Allocator,
    pub block_metadata: MetadataModel,
    pub voxel_metadata: Map<Vector3i, MetadataModel>,
}

impl ChannelModel {
    /// A uniform channel stores nothing; a dense one stores a value that fits
    /// its depth for each of `volume` voxels.
    pub open spec fn wf(self, volume: int) -> bool {
        match self.compression {
            Compression::Uniform => self.values == Seq::<u64>::empty(),
            Compression::Dense => {
                &&& self.values.len() == volume
                &&& forall|i: int|
                    0 <= i < volume ==> self.depth.truncated(#[trigger] self.values[i])
                        == self.values[i]
            },
        }
    }

    /// The channel with `value` for every voxel and nothing stored.
    pub open spec fn made_uniform(self, value: u64) -> ChannelModel {
        ChannelModel {
            compression: Compression::Uniform,
            defval: value,
            values: Seq::empty(),
            ..self
        }
    }

    /// The channel with one stored value per voxel.
    pub open spec fn made_dense(self, volume: int) -> ChannelModel {
        match self.compression {
            Compression::Dense => self,
            Compression::Uniform => ChannelModel {
                compression: Compression::Dense,
                values: Seq::new(volume as nat, |i: int| self.depth.truncated(self.defval)),
                ..self
            },
        }
    }

    /// The dense channel with other values.
    pub open spec fn with_values(self, values: Seq<u64>) -> ChannelModel {
        ChannelModel { compression: Compression::Dense, values, ..self }
    }

    /// The value of the voxel at flat index `i`.
    pub open spec fn at(self, i: int) -> u64 {
        match self.compression {
            Compression::Uniform => self.defval,
            Compression::Dense => self.values[i],
        }
    }

    /// All voxels have the same value.
    pub open spec fn all_equal(self) -> bool {
        self.compression == Compression::Uniform || forall|i: int, j: int|
            0 <= i < self.values.len() && 0 <= j < self.values.len() ==> #[trigger] self.values[i]
                == #[trigger] self.values[j]
    }

    /// The channel with its stored values dropped where they are all equal.
    pub open spec fn compressed(self) -> ChannelModel {
        if self.compression == Compression::Dense && self.all_equal() {
            self.made_uniform(self.values[0])
        } else {
            self
        }
    }

    /// The channel with the box between two corners filled with `value`.
    pub open spec fn area_filled(self, size: Cell, min: Cell, max: Cell, value: u64) -> ChannelModel {
        let (lo, hi) = funcs::fill_extent(size, min, max);
        if !lo.lt(hi) || (self.compression == Compression::Uniform && self.defval == value) {
            self
        } else {
            let dense = self.made_dense(grid::volume(size));
            dense.with_values(
                grid::region_write(
                    dense.values,
                    size,
                    lo,
                    hi,
                    |c: Cell| self.depth.truncated(value),
                ),
            )
        }
    }

    /// The channel after a clipped box has been copied from `src`.
    pub open spec fn area_copied(
        self,
        size: Cell,
        src: ChannelModel,
        src_size: Cell,
        src_min: Cell,
        src_max: Cell,
        dst_min: Cell,
    ) -> ChannelModel {
        let (lo, hi, to) = funcs::copy_extent(src_min, src_max, src_size, dst_min, size);
        if !lo.lt(hi) {
            self
        } else if src.compression == Compression::Dense {
            let dense = self.made_dense(grid::volume(size));
            dense.with_values(
                funcs::region_copy(dense.values, size, to, src.values, src_size, lo, hi),
            )
        } else {
            self.area_filled(size, to, to.plus(hi.minus(lo)), src.defval)
        }
    }

    /// The channel with its values moved: the voxel at `c` is the one that was
    /// at `from(c)`.
    pub open spec fn rearranged(self, size: Cell, from: spec_fn(Cell) -> Cell) -> ChannelModel {
        match self.compression {
            Compression::Uniform => self,
            Compression::Dense => self.with_values(
                Seq::new(
                    self.values.len(),
                    |i: int| self.values[grid::zxy(size, from(grid::cell_at(size, i)))],
                ),
            ),
        }
    }
}

/// The mirror image of `c` along an axis: 0 for X, 1 for Y, any other for Z.
pub open spec fn mirrored(size: Cell, axis: int, c: Cell) -> Cell {
    if axis == 0 {
        Cell { x: size.x - 1 - c.x, y: c.y, z: c.z }
    } else if axis == 1 {
        Cell { x: c.x, y: size.y - 1 - c.y, z: c.z }
    } else {
        Cell { x: c.x, y: c.y, z: size.z - 1 - c.z }
    }
}

/// Where a quarter turn around an axis takes `c`.
pub open spec fn rotated(size: Cell, axis: int, clockwise: bool, c: Cell) -> Cell {
    if axis == 0 {
        if clockwise {
            Cell { x: c.x, y: size.z - 1 - c.z, z: c.y }
        } else {
            Cell { x: c.x, y: c.z, z: size.y - 1 - c.y }
        }
    } else if axis == 1 {
        if clockwise {
            Cell { x: size.z - 1 - c.z, y: c.y, z: c.x }
        } else {
            Cell { x: c.z, y: c.y, z: size.x - 1 - c.x }
        }
    } else {
        if clockwise {
            Cell { x: size.y - 1 - c.y, y: c.x, z: c.z }
        } else {
            Cell { x: c.y, y: size.x - 1 - c.x, z: c.z }
        }
    }
}

/// The grid has the same extent on both axes of the plane of a rotation.
pub open spec fn square_around(size: Cell, axis: int) -> bool {
    if axis == 0 {
        size.y == size.z
    } else if axis == 1 {
        size.x == size.z
    } else {
        size.x == size.y
    }
}

/// The boxes of a 2:1 downscale: source minimum, and the two corners of the
/// destination box, in no particular order.
pub open spec fn downscale_extent(
    src_size: Cell,
    dst_size: Cell,
    src_min: Cell,
    src_max: Cell,
    dst_min: Cell,
) -> (Cell, Cell, Cell) {
    let lo = src_min.clamp(Cell::zero(), src_size.minus(Cell::splat(1)));
    let hi = src_max.clamp(Cell::zero(), src_size);
    let to = dst_min.clamp(Cell::zero(), dst_size.minus(Cell::splat(1)));
    let end = dst_min.plus(hi.minus(lo).over(2)).clamp(Cell::zero(), dst_size);
    (lo, to, end)
}

/// The source cell that a downscale samples for destination cell `c`.
pub open spec fn downscale_source(extent: (Cell, Cell, Cell), c: Cell) -> Cell {
    extent.0.plus(c.minus(extent.1).times(2))
}

/// Channel `mask` bit `i` is set.
pub open spec fn in_mask(mask: u8, i: int) -> bool {
    (mask >> (i as u8)) & 1 == 1
}

impl BufferModel {
    pub open spec fn wf(self) -> bool {
        &&& Cell::zero().le(self.size)
        &&& self.size.le(Cell::splat(channel::MAX_SIZE as int))
        &&& grid::volume(self.size) * 8 <= isize::MAX
        &&& self.channels.len() == channel::MAX_CHANNELS
        &&& forall|i: int|
            0 <= i < channel::MAX_CHANNELS ==> #[trigger] self.channels[i].wf(
                grid::volume(self.size),
            )
    }

    /// The value of channel `c` at `cell`.
    pub open spec fn value(self, c: int, cell: Cell) -> u64 {
        self.channels[c].at(grid::zxy(self.size, cell))
    }

    pub open spec fn with_channel(self, c: int, ch: ChannelModel) -> BufferModel {
        BufferModel { channels: self.channels.update(c, ch), ..self }
    }

    /// A buffer of no extent, as a constructor makes it.
    pub open spec fn fresh(allocator: Allocator) -> BufferModel {
        BufferModel {
            size: Cell::zero(),
            channels: Seq::new(
                channel::MAX_CHANNELS as nat,
                |i: int|
                    ChannelModel {
                        depth: channel::default_depth(i),
                        compression: Compression::Uniform,
                        defval: channel::default_raw(i, channel::default_depth(i)),
                        values: Seq::empty(),
                    },
            ),
            allocator,
            block_metadata: MetadataModel::Nil,
            voxel_metadata: Map::empty(),
        }
    }

    /// The buffer emptied and given a new extent. Depths stay.
    pub open spec fn created(self, size: Cell) -> BufferModel {
        BufferModel {
            size,
            channels: Seq::new(
                channel::MAX_CHANNELS as nat,
                |i: int|
                    self.channels[i].made_uniform(channel::default_raw(i, self.channels[i].depth)),
            ),
            allocator: self.allocator,
            block_metadata: MetadataModel::Nil,
            voxel_metadata: Map::empty(),
        }
    }

    pub open spec fn depth_set(self, c: int, depth: ChannelDepth) -> BufferModel {
        if self.channels[c].depth == depth {
            self
        } else {
            self.with_channel(
                c,
                ChannelModel {
                    depth,
                    compression: Compression::Uniform,
                    defval: channel::default_raw(c, depth),
                    values: Seq::empty(),
                },
            )
        }
    }

    pub open spec fn filled(self, c: int, value: u64) -> BufferModel {
        self.with_channel(c, self.channels[c].made_uniform(value))
    }

    pub open spec fn decompressed(self, c: int) -> BufferModel {
        self.with_channel(c, self.channels[c].made_dense(grid::volume(self.size)))
    }

    pub open spec fn voxel_set(self, c: int, cell: Cell, value: u64) -> BufferModel {
        let dense = self.channels[c].made_dense(grid::volume(self.size));
        self.with_channel(
            c,
            dense.with_values(
                dense.values.update(grid::zxy(self.size, cell), dense.depth.truncated(value)),
            ),
        )
    }

    pub open spec fn area_filled(self, c: int, min: Cell, max: Cell, value: u64) -> BufferModel {
        self.with_channel(c, self.channels[c].area_filled(self.size, min, max, value))
    }

    pub open spec fn compressed(self) -> BufferModel {
        BufferModel {
            channels: Seq::new(self.channels.len(), |i: int| self.channels[i].compressed()),
            ..self
        }
    }

    pub open spec fn mirrored(self, c: int, axis: int) -> BufferModel {
        self.with_channel(
            c,
            self.channels[c].rearranged(self.size, |p: Cell| mirrored(self.size, axis, p)),
        )
    }

    /// A turned channel: what was at `p` is now at `rotated(p)`, so what is at
    /// `p` was where the opposite turn takes it.
    pub open spec fn rotated(self, c: int, axis: int, clockwise: bool) -> BufferModel {
        self.with_channel(
            c,
            self.channels[c].rearranged(
                self.size,
                |p: Cell| rotated(self.size, axis, !clockwise, p),
            ),
        )
    }

    /// The result of pasting `src` from `src_min` on: source voxel `s` lands at
    /// `dst_min + (s - src_min)`. Metadata follows separately.
    pub open spec fn voxels_pasted(
        self,
        src: BufferModel,
        src_min: Cell,
        dst_min: Cell,
        mask: u8,
    ) -> BufferModel {
        BufferModel {
            channels: Seq::new(
                self.channels.len(),
                |i: int|
                    if in_mask(mask, i) {
                        let dense = self.channels[i].made_dense(grid::volume(self.size));
                        dense.with_values(
                            grid::region_write(
                                dense.values,
                                self.size,
                                dst_min.minus(src_min).plus(src_min.max(Cell::zero())),
                                dst_min.minus(src_min).plus(src.size),
                                |d: Cell|
                                    dense.depth.truncated(
                                        src.value(i, d.minus(dst_min).plus(src_min)),
                                    ),
                            ),
                        )
                    } else {
                        self.channels[i]
                    },
            ),
            ..self
        }
    }

    /// The metadata of `src` that a move by `dst_min - src_min` brings inside:
    /// entries at or behind `src_min` that lie below the source's extent.
    pub open spec fn metadata_pasted(
        self,
        src: BufferModel,
        src_min: Cell,
        dst_min: Cell,
    ) -> BufferModel {
        BufferModel {
            voxel_metadata: Map::new(
                |p: Vector3i|
                    self.voxel_metadata.contains_key(p) || metadata_moves(
                        self,
                        src,
                        src_min,
                        dst_min,
                        p,
                    ),
                |p: Vector3i|
                    if metadata_moves(self, src, src_min, dst_min, p) {
                        src.voxel_metadata[metadata_source(src_min, dst_min, p)]
                    } else {
                        self.voxel_metadata[p]
                    },
            ),
            ..self
        }
    }

    /// The result of a 2:1 nearest-neighbour downscale of `src` into `self`.
    pub open spec fn downscaled_from(
        self,
        src: BufferModel,
        src_min: Cell,
        src_max: Cell,
        dst_min: Cell,
    ) -> BufferModel {
        BufferModel {
            channels: Seq::new(
                self.channels.len(),
                |i: int| self.channel_downscaled_from(src, src_min, src_max, dst_min, i),
            ),
            ..self
        }
    }

    pub open spec fn channel_downscaled_from(
        self,
        src: BufferModel,
        src_min: Cell,
        src_max: Cell,
        dst_min: Cell,
        i: int,
    ) -> ChannelModel {
        let extent = downscale_extent(src.size, self.size, src_min, src_max, dst_min);
        let (lo, hi) = funcs::fill_extent(self.size, extent.1, extent.2);
        if self.downscale_skips(src, i) || !lo.lt(hi) {
            self.channels[i]
        } else {
            let dense = self.channels[i].made_dense(grid::volume(self.size));
            dense.with_values(
                grid::region_write(
                    dense.values,
                    self.size,
                    lo,
                    hi,
                    |c: Cell|
                        dense.depth.truncated(src.value(i, downscale_source(extent, c))),
                ),
            )
        }
    }

    /// Channel `i` has the same single value in both buffers.
    pub open spec fn downscale_skips(self, src: BufferModel, i: int) -> bool {
        &&& src.channels[i].compression == Compression::Uniform
        &&& self.channels[i].compression == Compression::Uniform
        &&& src.channels[i].defval == self.channels[i].defval
    }

    /// Every voxel that a downscale samples exists, as far as any channel needs
    /// one.
    pub open spec fn downscale_in_bounds(
        self,
        src: BufferModel,
        src_min: Cell,
        src_max: Cell,
        dst_min: Cell,
    ) -> bool {
        let extent = downscale_extent(src.size, self.size, src_min, src_max, dst_min);
        let (lo, hi) = funcs::fill_extent(self.size, extent.1, extent.2);
        (exists|i: int| 0 <= i < channel::MAX_CHANNELS && !#[trigger] self.downscale_skips(src, i))
            ==> forall|c: Cell|
            c.within(lo, hi) ==> #[trigger] downscale_source(extent, c).in_grid(src.size)
    }
}

/// The source position of the metadata that a paste puts at `p`.
pub open spec fn metadata_source(src_min: Cell, dst_min: Cell, p: Vector3i) -> Vector3i {
    Vector3i::from_cell(p@.minus(dst_min).plus(src_min))
}

/// A paste puts metadata at `p`.
pub open spec fn metadata_moves(
    dst: BufferModel,
    src: BufferModel,
    src_min: Cell,
    dst_min: Cell,
    p: Vector3i,
) -> bool {
    let q = p@.minus(dst_min).plus(src_min);
    &&& p@.in_grid(dst.size)
    &&& q.fits()
    &&& q.within(src_min, src.size)
    &&& src.voxel_metadata.contains_key(metadata_source(src_min, dst_min, p))
}

} // verus!
