//! Dense multi-channel voxel storage.
//!
//! A buffer has up to eight channels of 8, 16, 32 or 64 bits. A channel holds
//! either one value for all voxels or one value each in ZXY order
//! (`index = y + sy * (x + sx * z)`).

use crate::buffer_model;
use crate::buffer_model::{BufferModel, ChannelModel};
use crate::channel;
use crate::channel::{Allocator, ChannelData, Compression, MAX_CHANNELS, MAX_SIZE};
use crate::depth::ChannelDepth;
use crate::funcs;
use crate::grid;
use crate::grid::Cell;
use crate::math::Vector3i;
use crate::metadata;
use crate::metadata::MetadataValue;
use crate::position_map::PosMap;
use crate::voxel_memory_pool::VoxelMemoryPool;
use std::sync::Arc;
use vstd::prelude::*;

verus! {

/// Storage of one channel.
#[derive(Debug)]
pub struct Channel {
    /// The voxel values of a dense channel; empty otherwise.
    pub data: ChannelData,
    /// The value of every voxel of a uniform channel.
    pub defval: u64,
    pub depth: ChannelDepth,
    pub compression: Compression,
    /// Bytes allocated for the values of a dense channel.
    pub size_in_bytes: u32,
}

impl View for Channel {
    type V = ChannelModel;

    open spec fn view(&self) -> ChannelModel {
        ChannelModel {
            depth: self.depth,
            compression: self.compression,
            defval: self.defval,
            values: self.data@,
        }
    }
}

/// Bytes that the values of a dense channel take, as they are recorded.
pub open spec fn recorded_bytes(volume: int, depth: ChannelDepth) -> u32 {
    (volume * depth.bytes()) as u32
}

impl Channel {
    /// The stored values fit the channel's depth and the buffer's volume.
    pub open spec fn wf(&self, volume: int) -> bool {
        match self.compression {
            Compression::Uniform => self.data@.len() == 0 && self.size_in_bytes == 0,
            Compression::Dense => {
                &&& self.data.width() == self.depth
                &&& self.data@.len() == volume
                &&& self.size_in_bytes == recorded_bytes(volume, self.depth)
            },
        }
    }

    /// Bytes needed to store a volume of extent `size` at `depth`.
    pub fn size_in_bytes_for_volume(size: Vector3i, depth: ChannelDepth) -> (n: usize)
        requires
            Cell::zero().le(size@),
            grid::volume(size@) * depth.bytes() <= usize::MAX,
            size.x * size.y <= usize::MAX,
        ensures
            n == grid::volume(size@) * depth.bytes(),
    {
        proof {
            grid::lemma_volume_sign(size@);
            let v = grid::volume(size@);
            let b = depth.bytes();
            assert(0 <= size.x * size.y && v <= v * b) by (nonlinear_arith)
                requires
                    0 <= size.x,
                    0 <= size.y,
                    0 <= v,
                    1 <= b,
            ;
        }
        size.x as usize * size.y as usize * size.z as usize * depth.byte_count() as usize
    }
}

impl Default for Channel {
    fn default() -> (ch: Channel)
        ensures
            ch@ == (ChannelModel {
                depth: channel::DEFAULT_CHANNEL_DEPTH,
                compression: Compression::Uniform,
                defval: 0,
                values: Seq::empty(),
            }),
            ch.wf(0),
    {
        Channel {
            data: ChannelData::default(),
            defval: 0,
            depth: channel::DEFAULT_CHANNEL_DEPTH,
            compression: Compression::Uniform,
            size_in_bytes: 0,
        }
    }
}

/// Drops the stored values of a channel.
fn free_channel_data(ch: &mut Channel)
    ensures
        final(ch).data@ == Seq::<u64>::empty(),
        final(ch).size_in_bytes == 0,
        final(ch).defval == old(ch).defval,
        final(ch).depth == old(ch).depth,
        final(ch).compression == old(ch).compression,
{
    if ch.data.is_empty() {
        assert(ch.data@ =~= Seq::<u64>::empty());
        ch.size_in_bytes = 0;
        return;
    }
    ch.data = ChannelData::default();
    ch.size_in_bytes = 0;
}

fn default_channel_for_index(i: usize) -> (ch: Channel)
    requires
        i < MAX_CHANNELS,
    ensures
        ch@ == (ChannelModel {
            depth: channel::default_depth(i as int),
            compression: Compression::Uniform,
            defval: channel::default_raw(i as int, channel::default_depth(i as int)),
            values: Seq::empty(),
        }),
        ch.size_in_bytes == 0,
{
    let depth = channel::default_depth_for_channel_index(i);
    let id = channel::channel_id_from_index(i).unwrap();
    Channel {
        data: ChannelData::default(),
        defval: channel::get_default_raw_value(id, depth),
        depth,
        compression: Compression::Uniform,
        size_in_bytes: 0,
    }
}

/// Flat index of a voxel in a channel of a buffer of extent `size`.
pub fn voxel_index(size: Vector3i, x: usize, y: usize, z: usize) -> (i: usize)
    requires
        ({
            let c = Cell { x: x as int, y: y as int, z: z as int };
            c.in_grid(size@) && grid::zxy(size@, c) <= usize::MAX
        }),
    ensures
        i == grid::zxy(size@, Cell { x: x as int, y: y as int, z: z as int }),
{
    Vector3i::new(x as i32, y as i32, z as i32).zxy_index(size)
}

/// The box between two corners, put in order and clamped to the grid, unless it
/// is empty.
fn clipped_area(size: Vector3i, min: Vector3i, max: Vector3i) -> (r: Option<(Vector3i, Vector3i)>)
    ensures
        ({
            let (lo, hi) = funcs::fill_extent(size@, min@, max@);
            &&& r is Some <==> lo.lt(hi)
            &&& r matches Some(b) ==> b.0@ == lo && b.1@ == hi
        }),
{
    let mut lo = min;
    let mut hi = max;
    Vector3i::sort_min_max(&mut lo, &mut hi);
    lo = lo.clamp(Vector3i::zero(), size);
    hi = hi.clamp(Vector3i::zero(), size);
    if hi.x <= lo.x || hi.y <= lo.y || hi.z <= lo.z {
        return None;
    }
    Some((lo, hi))
}

/// Dense multi-channel voxel buffer.
///
/// Channels start uniform and are allocated on the first write.
#[derive(Debug)]
pub struct VoxelBuffer {
    size: Vector3i,
    channels: [Channel; MAX_CHANNELS],
    allocator: Allocator,
    pool: Option<Arc<VoxelMemoryPool>>,
    block_metadata: MetadataValue,
    voxel_metadata: PosMap<MetadataValue>,
}

impl View for VoxelBuffer {
    type V = BufferModel;

    closed spec fn view(&self) -> BufferModel {
        BufferModel {
            size: self.size@,
            channels: Seq::new(MAX_CHANNELS as nat, |i: int| self.channels@[i]@),
            allocator: self.allocator,
            block_metadata: self.block_metadata@,
            voxel_metadata: metadata::metadata_model(self.voxel_metadata@),
        }
    }
}

impl VoxelBuffer {
    /// The extent is in range and every channel fits it.
    pub closed spec fn wf(&self) -> bool {
        &&& Cell::zero().le(self.size@)
        &&& self.size@.le(Cell::splat(MAX_SIZE as int))
        &&& grid::volume(self.size@) * 8 <= isize::MAX
        &&& forall|i: int|
            0 <= i < MAX_CHANNELS ==> #[trigger] self.channels@[i].wf(grid::volume(self.size@))
        &&& self.voxel_metadata.wf()
    }

    /// The memory pool that is attached to the buffer.
    pub closed spec fn attached_pool(&self) -> Option<Arc<VoxelMemoryPool>> {
        self.pool
    }

    /// The model of a well-formed buffer is well-formed.
    pub proof fn lemma_wf(&self)
        requires
            self.wf(),
        ensures
            self@.wf(),
    {
        let v = grid::volume(self@.size);
        assert forall|i: int| 0 <= i < MAX_CHANNELS implies #[trigger] self@.channels[i].wf(v) by {
            assert(self.channels@[i].wf(v));
            self.channels@[i].data.lemma_values_fit();
            if self.channels@[i].compression == Compression::Uniform {
                assert(self@.channels[i].values =~= Seq::<u64>::empty());
            }
        }
    }

    /// The buffer's extent and volume are small enough for index arithmetic.
    proof fn lemma_sizes(&self)
        requires
            self.wf(),
        ensures
            0 <= grid::volume(self.size@) <= usize::MAX,
            grid::volume(self.size@) * 8 <= isize::MAX,
            0 <= self.size.x * self.size.y <= u32::MAX,
    {
        grid::lemma_volume_sign(self.size@);
        assert(0 <= self.size.x * self.size.y <= 65535 * 65535) by (nonlinear_arith)
            requires
                0 <= self.size.x <= 65535,
                0 <= self.size.y <= 65535,
        ;
    }

    /// Creates a buffer of no extent.
    pub fn new(allocator: Allocator) -> (b: VoxelBuffer)
        ensures
            b.wf(),
            b@ == BufferModel::fresh(allocator),
    {
        let b = VoxelBuffer {
            size: Vector3i::zero(),
            channels: [
                default_channel_for_index(0),
                default_channel_for_index(1),
                default_channel_for_index(2),
                default_channel_for_index(3),
                default_channel_for_index(4),
                default_channel_for_index(5),
                default_channel_for_index(6),
                default_channel_for_index(7),
            ],
            allocator,
            pool: None,
            block_metadata: MetadataValue::Nil,
            voxel_metadata: PosMap::new(),
        };
        proof {
            assert(b@.channels =~= BufferModel::fresh(allocator).channels);
            assert(b@.voxel_metadata =~= Map::empty());
        }
        b
    }

    /// Creates a buffer of the given extent with default depths and values.
    pub fn with_size(size: Vector3i) -> (b: VoxelBuffer)
        requires
            Cell::zero().le(size@),
            size@.le(Cell::splat(MAX_SIZE as int)),
            grid::volume(size@) * 8 <= isize::MAX,
        ensures
            b.wf(),
            b@ == BufferModel::fresh(Allocator::Default).created(size@),
    {
        let mut b = VoxelBuffer::new(Allocator::Default);
        b.create(size);
        b
    }

    /// Attaches a memory pool.
    pub fn with_pool(self, pool: Arc<VoxelMemoryPool>) -> (b: VoxelBuffer)
        requires
            self.wf(),
        ensures
            b.wf(),
            b@ == self@,
            b.attached_pool() == Some(pool),
    {
        VoxelBuffer { pool: Some(pool), ..self }
    }

    /// Gives the buffer a new extent. Every channel becomes uniform with the
    /// default value of its depth; metadata is dropped.
    pub fn create(&mut self, size: Vector3i)
        requires
            old(self).wf(),
            Cell::zero().le(size@),
            size@.le(Cell::splat(MAX_SIZE as int)),
            grid::volume(size@) * 8 <= isize::MAX,
        ensures
            final(self).wf(),
            final(self)@ == old(self)@.created(size@),
    {
        self.size = size;
        let mut i: usize = 0;
        while i < MAX_CHANNELS
            invariant
                i <= MAX_CHANNELS,
                self.size == size,
                self.allocator == old(self).allocator,
                self.voxel_metadata.wf(),
                forall|k: int|
                    0 <= k < i ==> (#[trigger] self.channels@[k])@ == old(self)@.created(
                        size@,
                    ).channels[k] && self.channels@[k].size_in_bytes == 0,
                forall|k: int|
                    i <= k < MAX_CHANNELS ==> #[trigger] self.channels@[k] == old(
                        self,
                    ).channels@[k],
            decreases MAX_CHANNELS - i,
        {
            let id = channel::channel_id_from_index(i).unwrap();
            let ch = &mut self.channels[i];
            free_channel_data(ch);
            ch.compression = Compression::Uniform;
            ch.defval = channel::get_default_raw_value(id, ch.depth);
            i = i + 1;
        }
        self.block_metadata = MetadataValue::Nil;
        self.voxel_metadata.clear();
        proof {
            assert(self@.channels =~= old(self)@.created(size@).channels);
            assert(self@.voxel_metadata =~= Map::empty());
        }
    }

    /// Extent in voxels.
    pub fn size(&self) -> (size: Vector3i)
        ensures
            size@ == self@.size,
    {
        self.size
    }

    /// Number of channels.
    pub fn channel_count(&self) -> (n: usize)
        ensures
            n == MAX_CHANNELS,
            n == self@.channels.len(),
    {
        MAX_CHANNELS
    }

    /// The buffer's allocator.
    pub fn allocator(&self) -> (a: Allocator)
        ensures
            a == self@.allocator,
    {
        self.allocator
    }

    /// Depth of a channel.
    pub fn channel_depth(&self, channel_index: usize) -> (d: ChannelDepth)
        requires
            channel_index < MAX_CHANNELS,
        ensures
            d == self@.channels[channel_index as int].depth,
    {
        self.channels[channel_index].depth
    }

    /// Compression of a channel.
    pub fn channel_compression(&self, channel_index: usize) -> (c: Compression)
        requires
            channel_index < MAX_CHANNELS,
        ensures
            c == self@.channels[channel_index as int].compression,
    {
        self.channels[channel_index].compression
    }

    /// The uniform value of a channel.
    pub fn channel_default(&self, channel_index: usize) -> (v: u64)
        requires
            channel_index < MAX_CHANNELS,
        ensures
            v == self@.channels[channel_index as int].defval,
    {
        self.channels[channel_index].defval
    }

    /// The stored voxels of a channel; empty for a uniform one.
    pub fn channel_data(&self, channel_index: usize) -> (d: &ChannelData)
        requires
            self.wf(),
            channel_index < MAX_CHANNELS,
        ensures
            d@ == self@.channels[channel_index as int].values,
            self@.channels[channel_index as int].compression == Compression::Dense ==> d.width()
                == self@.channels[channel_index as int].depth,
    {
        proof {
            assert(self.channels@[channel_index as int].wf(grid::volume(self.size@)));
        }
        &self.channels[channel_index].data
    }

    /// Sets the depth of a channel. A change makes the channel uniform with the
    /// default value of the new depth.
    pub fn set_channel_depth(&mut self, channel_index: usize, depth: ChannelDepth)
        requires
            old(self).wf(),
            channel_index < MAX_CHANNELS,
        ensures
            final(self).wf(),
            final(self)@ == old(self)@.depth_set(channel_index as int, depth),
    {
        if self.channels[channel_index].depth == depth {
            return;
        }
        let id = channel::channel_id_from_index(channel_index).unwrap();
        let ch = &mut self.channels[channel_index];
        free_channel_data(ch);
        ch.depth = depth;
        ch.defval = channel::get_default_raw_value(id, depth);
        ch.compression = Compression::Uniform;
        proof {
            self.lemma_channel_replaced(old(self), channel_index as int);
            assert(self@ =~= old(self)@.depth_set(channel_index as int, depth));
        }
    }

    /// Replacing one channel by one that fits keeps the buffer well-formed.
    proof fn lemma_channel_replaced(&self, before: &VoxelBuffer, c: int)
        requires
            before.wf(),
            0 <= c < MAX_CHANNELS,
            self.size == before.size,
            self.allocator == before.allocator,
            self.block_metadata == before.block_metadata,
            self.voxel_metadata == before.voxel_metadata,
            self.channels@ == before.channels@.update(c, self.channels@[c]),
            self.channels@[c].wf(grid::volume(self.size@)),
        ensures
            self.wf(),
            self@ == before@.with_channel(c, self.channels@[c]@),
    {
        assert forall|i: int| 0 <= i < MAX_CHANNELS implies #[trigger] self.channels@[i].wf(
            grid::volume(self.size@),
        ) by {
            assert(before.channels@[i].wf(grid::volume(before.size@)));
        }
        assert(self@.channels =~= before@.with_channel(c, self.channels@[c]@).channels);
    }

    /// Makes a channel uniform.
    pub fn clear_channel(&mut self, channel_index: usize, clear_value: u64)
        requires
            old(self).wf(),
            channel_index < MAX_CHANNELS,
        ensures
            final(self).wf(),
            final(self)@ == old(self)@.filled(channel_index as int, clear_value),
    {
        let ch = &mut self.channels[channel_index];
        free_channel_data(ch);
        ch.defval = clear_value;
        ch.compression = Compression::Uniform;
        proof {
            self.lemma_channel_replaced(old(self), channel_index as int);
            assert(self@ =~= old(self)@.filled(channel_index as int, clear_value));
        }
    }

    /// Gives every voxel of a channel the same value.
    pub fn fill(&mut self, value: u64, channel_index: usize)
        requires
            old(self).wf(),
            channel_index < MAX_CHANNELS,
        ensures
            final(self).wf(),
            final(self)@ == old(self)@.filled(channel_index as int, value),
    {
        if self.channels[channel_index].compression == Compression::Uniform
            && self.channels[channel_index].defval == value {
            proof {
                self.lemma_wf();
                let c = channel_index as int;
                assert(self@.channels[c] == self.channels@[c]@);
                assert(self@.channels[c].wf(grid::volume(self@.size)));
                assert(self@.channels[c] =~= self@.channels[c].made_uniform(value));
                assert(self@ =~= old(self)@.filled(c, value));
            }
            return;
        }
        let ch = &mut self.channels[channel_index];
        free_channel_data(ch);
        ch.defval = value;
        ch.compression = Compression::Uniform;
        proof {
            self.lemma_channel_replaced(old(self), channel_index as int);
            assert(self@ =~= old(self)@.filled(channel_index as int, value));
        }
    }

    /// A voxel's raw value.
    pub fn get_voxel(&self, x: i32, y: i32, z: i32, channel_index: usize) -> (v: u64)
        requires
            self.wf(),
            channel_index < MAX_CHANNELS,
            self@.channels[channel_index as int].compression == Compression::Dense ==> (Cell {
                x: x as int,
                y: y as int,
                z: z as int,
            }).in_grid(self@.size),
        ensures
            v == self@.value(
                channel_index as int,
                Cell { x: x as int, y: y as int, z: z as int },
            ),
    {
        let ch = &self.channels[channel_index];
        if ch.compression == Compression::Uniform {
            return ch.defval;
        }
        proof {
            self.lemma_sizes();
            assert(ch.wf(grid::volume(self.size@)));
            grid::lemma_zxy_bounds(self.size@, Cell { x: x as int, y: y as int, z: z as int });
        }
        let i: usize = voxel_index(self.size, x as usize, y as usize, z as usize);
        ch.data.get_u64(i)
    }

    /// Stores one value per voxel, unless the channel does so already.
    pub fn decompress_channel(&mut self, channel_index: usize)
        requires
            old(self).wf(),
            channel_index < MAX_CHANNELS,
        ensures
            final(self).wf(),
            final(self)@ == old(self)@.decompressed(channel_index as int),
    {
        let compression = self.channels[channel_index].compression;
        let depth = self.channels[channel_index].depth;
        let defval: u64 = self.channels[channel_index].defval;
        if compression == Compression::Dense {
            assert(self@ =~= old(self)@.decompressed(channel_index as int));
            return;
        }
        proof {
            self.lemma_sizes();
            let v = grid::volume(self.size@);
            let b = depth.bytes();
            assert(0 <= v * b && v * b <= v * 8) by (nonlinear_arith)
                requires
                    0 <= v,
                    1 <= b <= 8,
            ;
        }
        let bytes: usize = Channel::size_in_bytes_for_volume(self.size, depth);
        let voxel_count: usize = self.size.volume_u64() as usize;
        let mut data = ChannelData::new_for_depth(depth, voxel_count);
        data.fill_u64(defval);
        let ch = &mut self.channels[channel_index];
        ch.data = data;
        ch.size_in_bytes = #[verifier::truncate] (bytes as u32);
        ch.compression = Compression::Dense;
        proof {
            self.lemma_channel_replaced(old(self), channel_index as int);
            assert(self@.channels[channel_index as int] =~= old(self)@.channels[channel_index as int].made_dense(
                grid::volume(self.size@),
            ));
            assert(self@ =~= old(self)@.decompressed(channel_index as int));
        }
    }

    /// Sets a voxel's raw value, truncated to the channel's depth.
    pub fn set_voxel(&mut self, value: u64, x: i32, y: i32, z: i32, channel_index: usize)
        requires
            old(self).wf(),
            channel_index < MAX_CHANNELS,
            (Cell { x: x as int, y: y as int, z: z as int }).in_grid(old(self)@.size),
        ensures
            final(self).wf(),
            final(self)@ == old(self)@.voxel_set(
                channel_index as int,
                Cell { x: x as int, y: y as int, z: z as int },
                value,
            ),
    {
        let ghost c = Cell { x: x as int, y: y as int, z: z as int };
        self.decompress_channel(channel_index);
        let ghost mid = *self;
        proof {
            self.lemma_sizes();
            grid::lemma_zxy_bounds(self.size@, c);
            assert(self.channels@[channel_index as int].wf(grid::volume(self.size@)));
            assert(self@.channels[channel_index as int] == self.channels@[channel_index as int]@);
        }
        let i: usize = voxel_index(self.size, x as usize, y as usize, z as usize);
        self.channels[channel_index].data.set_u64(i, value);
        proof {
            self.lemma_channel_replaced(&mid, channel_index as int);
            assert(self@ =~= old(self)@.voxel_set(channel_index as int, c, value));
        }
    }

    /// Fills the box between two corners with a raw value.
    pub fn fill_area(&mut self, value: u64, min: Vector3i, max: Vector3i, channel_index: usize)
        requires
            old(self).wf(),
            channel_index < MAX_CHANNELS,
        ensures
            final(self).wf(),
            final(self)@ == old(self)@.area_filled(channel_index as int, min@, max@, value),
    {
        let size = self.size;
        let ghost c = channel_index as int;
        proof {
            assert(self@.channels[c] == self.channels@[c]@);
            assert(self@ =~= self@.with_channel(c, self@.channels[c]));
        }
        let (lo, hi) = match clipped_area(size, min, max) {
            Some(area) => area,
            None => return,
        };
        if self.channels[channel_index].compression == Compression::Uniform
            && self.channels[channel_index].defval == value {
            return;
        }
        self.decompress_channel(channel_index);
        let ghost mid = *self;
        proof {
            assert(self.channels@[c].wf(grid::volume(self.size@)));
            assert(self@.channels[c] == self.channels@[c]@);
        }
        channel::fill_channel_region_typed(
            &mut self.channels[channel_index].data,
            size,
            lo,
            hi,
            value,
        );
        proof {
            self.lemma_channel_replaced(&mid, c);
            assert(self@ =~= old(self)@.area_filled(c, min@, max@, value));
        }
    }

    /// Replaces every voxel in the box between two corners by what `action`
    /// makes of its position and value. Nothing happens to an empty box.
    #[verifier::loop_isolation(false)]
    pub(crate) fn read_write_area<F: Fn(Vector3i, u64) -> u64>(
        &mut self,
        min: Vector3i,
        max: Vector3i,
        channel_index: usize,
        action: F,
    )
        requires
            old(self).wf(),
            channel_index < MAX_CHANNELS,
            forall|p: Vector3i, v: u64|
                p@.within(
                    funcs::fill_extent(old(self)@.size, min@, max@).0,
                    funcs::fill_extent(old(self)@.size, min@, max@).1,
                ) ==> #[trigger] call_requires(action, (p, v)),
        ensures
            final(self).wf(),
            area_rewritten(
                old(self)@,
                final(self)@,
                channel_index as int,
                min@,
                max@,
                |p: Vector3i, i: int, new: u64|
                    exists|r: u64|
                        #[trigger] call_ensures(
                            action,
                            (p, dense_values(old(self)@, channel_index as int)[i]),
                            r,
                        ) && new == old(self)@.channels[channel_index as int].depth.truncated(r),
            ),
    {
        let ghost wrote = |p: Vector3i, i: int, new: u64|
            exists|r: u64|
                #[trigger] call_ensures(
                    action,
                    (p, dense_values(old(self)@, channel_index as int)[i]),
                    r,
                ) && new == old(self)@.channels[channel_index as int].depth.truncated(r);
        let size = self.size;
        let ghost c = channel_index as int;
        let (lo, hi) = match clipped_area(size, min, max) {
            Some(area) => area,
            None => return,
        };
        self.decompress_channel(channel_index);
        let ghost mid = *self;
        let ghost dense = dense_values(old(self)@, c);
        let ghost depth = old(self)@.channels[c].depth;
        proof {
            self.lemma_sizes();
            assert(self.channels@[c].wf(grid::volume(self.size@)));
            assert(self@.channels[c] == self.channels@[c]@);
        }
        let mut z: i32 = lo.z;
        while z < hi.z
            invariant
                lo.z <= z <= hi.z,
                self.only_data_differs(&mid, c),
                partly_rewritten(
                    dense,
                    self.channels@[c].data@,
                    size@,
                    lo@,
                    hi@,
                    Cell { x: lo.x as int, y: lo.y as int, z: z as int },
                    wrote,
                ),
            decreases hi.z - z,
        {
            let mut x: i32 = lo.x;
            while x < hi.x
                invariant
                    lo.z <= z < hi.z,
                    lo.x <= x <= hi.x,
                    self.only_data_differs(&mid, c),
                    partly_rewritten(
                        dense,
                        self.channels@[c].data@,
                        size@,
                        lo@,
                        hi@,
                        Cell { x: x as int, y: lo.y as int, z: z as int },
                        wrote,
                    ),
                decreases hi.x - x,
            {
                let mut y: i32 = lo.y;
                while y < hi.y
                    invariant
                        lo.z <= z < hi.z,
                        lo.x <= x < hi.x,
                        lo.y <= y <= hi.y,
                        self.only_data_differs(&mid, c),
                        partly_rewritten(
                            dense,
                            self.channels@[c].data@,
                            size@,
                            lo@,
                            hi@,
                            Cell { x: x as int, y: y as int, z: z as int },
                            wrote,
                        ),
                    decreases hi.y - y,
                {
                    let pos = Vector3i::new(x, y, z);
                    proof {
                        grid::lemma_cell_at_zxy(size@, pos@);
                        assert(Vector3i::from_cell(pos@) == pos);
                    }
                    let i: usize = pos.zxy_index(size);
                    let current: u64 = self.channels[channel_index].data.get_u64(i);
                    let ghost values = self.channels@[c].data@;
                    let value: u64 = action(pos, current);
                    self.channels[channel_index].data.set_u64(i, value);
                    proof {
                        assert(wrote(pos, i as int, depth.truncated(value)));
                        lemma_rewrite_step(
                            dense,
                            values,
                            size@,
                            lo@,
                            hi@,
                            pos@,
                            depth.truncated(value),
                            wrote,
                        );
                    }
                    y = y + 1;
                }
                x = x + 1;
            }
            z = z + 1;
        }
        proof {
            self.lemma_channel_replaced(&mid, c);
            assert(self@.channels[c] == self.channels@[c]@);
            assert(self@ =~= old(self)@.with_channel(
                c,
                old(self)@.channels[c].made_dense(grid::volume(size@)).with_values(
                    self@.channels[c].values,
                ),
            ));
        }
    }

    /// Like `read_write_area`, with a second channel read at the same voxel
    /// before each write.
    #[verifier::loop_isolation(false)]
    pub(crate) fn read_write_area_with_channel<F: Fn(Vector3i, u64, u64) -> u64>(
        &mut self,
        min: Vector3i,
        max: Vector3i,
        write_channel_index: usize,
        read_channel_index: usize,
        action: F,
    )
        requires
            old(self).wf(),
            write_channel_index < MAX_CHANNELS,
            read_channel_index < MAX_CHANNELS,
            forall|p: Vector3i, v: u64, w: u64|
                p@.within(
                    funcs::fill_extent(old(self)@.size, min@, max@).0,
                    funcs::fill_extent(old(self)@.size, min@, max@).1,
                ) ==> #[trigger] call_requires(action, (p, v, w)),
        ensures
            final(self).wf(),
            area_rewritten(
                old(self)@,
                final(self)@,
                write_channel_index as int,
                min@,
                max@,
                |p: Vector3i, i: int, new: u64|
                    exists|r: u64|
                        #[trigger] call_ensures(
                            action,
                            (
                                p,
                                dense_values(old(self)@, write_channel_index as int)[i],
                                read_value(
                                    old(self)@,
                                    write_channel_index as int,
                                    read_channel_index as int,
                                    i,
                                ),
                            ),
                            r,
                        ) && new == old(
                            self,
                        )@.channels[write_channel_index as int].depth.truncated(r),
            ),
    {
        let ghost wrote = |p: Vector3i, i: int, new: u64|
            exists|r: u64|
                #[trigger] call_ensures(
                    action,
                    (
                        p,
                        dense_values(old(self)@, write_channel_index as int)[i],
                        read_value(
                            old(self)@,
                            write_channel_index as int,
                            read_channel_index as int,
                            i,
                        ),
                    ),
                    r,
                ) && new == old(self)@.channels[write_channel_index as int].depth.truncated(r);
        let size = self.size;
        let ghost c = write_channel_index as int;
        let ghost rc = read_channel_index as int;
        let (lo, hi) = match clipped_area(size, min, max) {
            Some(area) => area,
            None => return,
        };
        self.decompress_channel(write_channel_index);
        let ghost mid = *self;
        let ghost dense = dense_values(old(self)@, c);
        let ghost depth = old(self)@.channels[c].depth;
        proof {
            self.lemma_sizes();
            assert(self.channels@[c].wf(grid::volume(self.size@)));
            assert(self.channels@[rc].wf(grid::volume(self.size@)));
            assert(self@.channels[c] == self.channels@[c]@);
            assert(self@.channels[rc] == self.channels@[rc]@);
        }
        let mut z: i32 = lo.z;
        while z < hi.z
            invariant
                lo.z <= z <= hi.z,
                self.only_data_differs(&mid, c),
                partly_rewritten(
                    dense,
                    self.channels@[c].data@,
                    size@,
                    lo@,
                    hi@,
                    Cell { x: lo.x as int, y: lo.y as int, z: z as int },
                    wrote,
                ),
            decreases hi.z - z,
        {
            let mut x: i32 = lo.x;
            while x < hi.x
                invariant
                    lo.z <= z < hi.z,
                    lo.x <= x <= hi.x,
                    self.only_data_differs(&mid, c),
                    partly_rewritten(
                        dense,
                        self.channels@[c].data@,
                        size@,
                        lo@,
                        hi@,
                        Cell { x: x as int, y: lo.y as int, z: z as int },
                        wrote,
                    ),
                decreases hi.x - x,
            {
                let mut y: i32 = lo.y;
                while y < hi.y
                    invariant
                        lo.z <= z < hi.z,
                        lo.x <= x < hi.x,
                        lo.y <= y <= hi.y,
                        self.only_data_differs(&mid, c),
                        partly_rewritten(
                            dense,
                            self.channels@[c].data@,
                            size@,
                            lo@,
                            hi@,
                            Cell { x: x as int, y: y as int, z: z as int },
                            wrote,
                        ),
                    decreases hi.y - y,
                {
                    let pos = Vector3i::new(x, y, z);
                    proof {
                        grid::lemma_cell_at_zxy(size@, pos@);
                        assert(Vector3i::from_cell(pos@) == pos);
                    }
                    let i: usize = pos.zxy_index(size);
                    let current: u64 = self.channels[write_channel_index].data.get_u64(i);
                    let ghost values = self.channels@[c].data@;
                    proof {
                        assert(values[i as int] == dense[i as int]);
                        if rc != c {
                            assert(self.channels@[rc] == mid.channels@[rc]);
                        }
                    }
                    let read: u64 = if self.channels[read_channel_index].compression
                        == Compression::Uniform {
                        self.channels[read_channel_index].defval
                    } else {
                        self.channels[read_channel_index].data.get_u64(i)
                    };
                    assert(read == read_value(old(self)@, c, rc, i as int));
                    let value: u64 = action(pos, current, read);
                    self.channels[write_channel_index].data.set_u64(i, value);
                    proof {
                        assert(wrote(pos, i as int, depth.truncated(value)));
                        lemma_rewrite_step(
                            dense,
                            values,
                            size@,
                            lo@,
                            hi@,
                            pos@,
                            depth.truncated(value),
                            wrote,
                        );
                    }
                    y = y + 1;
                }
                x = x + 1;
            }
            z = z + 1;
        }
        proof {
            self.lemma_channel_replaced(&mid, c);
            assert(self@.channels[c] == self.channels@[c]@);
            assert(self@ =~= old(self)@.with_channel(
                c,
                old(self)@.channels[c].made_dense(grid::volume(size@)).with_values(
                    self@.channels[c].values,
                ),
            ));
        }
    }

    /// True if all voxels of a channel have the same value.
    pub fn is_uniform(&self, channel_index: usize) -> (b: bool)
        requires
            self.wf(),
            channel_index < MAX_CHANNELS,
        ensures
            b == self@.channels[channel_index as int].all_equal(),
    {
        let ch = &self.channels[channel_index];
        assert(self@.channels[channel_index as int] == ch@);
        if ch.compression == Compression::Uniform {
            return true;
        }
        let n: usize = ch.data.len();
        let mut i: usize = 1;
        while i < n
            invariant
                1 <= i,
                n == ch.data@.len(),
                self@.channels[channel_index as int] == ch@,
                ch.compression == Compression::Dense,
                forall|k: int| 0 <= k < i && k < n ==> #[trigger] ch.data@[k] == ch.data@[0],
            decreases n - i,
        {
            if ch.data.get_u64(i) != ch.data.get_u64(0) {
                assert(ch@.values[i as int] != ch@.values[0]);
                return false;
            }
            i = i + 1;
        }
        true
    }

    /// Makes every dense channel uniform whose voxels are all equal.
    pub fn compress_uniform_channels(&mut self)
        requires
            old(self).wf(),
            forall|c: int|
                0 <= c < MAX_CHANNELS && (#[trigger] old(self)@.channels[c]).compression
                    == Compression::Dense ==> grid::volume(old(self)@.size) > 0,
        ensures
            final(self).wf(),
            final(self)@ == old(self)@.compressed(),
    {
        let mut ci: usize = 0;
        while ci < MAX_CHANNELS
            invariant
                ci <= MAX_CHANNELS,
                self.wf(),
                old(self).wf(),
                forall|c: int|
                    0 <= c < MAX_CHANNELS && (#[trigger] old(self)@.channels[c]).compression
                        == Compression::Dense ==> grid::volume(old(self)@.size) > 0,
                self@ == (BufferModel { channels: self@.channels, ..old(self)@ }),
                self@.channels.len() == MAX_CHANNELS,
                forall|k: int|
                    0 <= k < ci ==> #[trigger] self@.channels[k] == old(
                        self,
                    )@.channels[k].compressed(),
                forall|k: int|
                    ci <= k < MAX_CHANNELS ==> #[trigger] self@.channels[k] == old(
                        self,
                    )@.channels[k],
            decreases MAX_CHANNELS - ci,
        {
            proof {
                assert(self@.channels[ci as int] == self.channels@[ci as int]@);
                assert(self.channels@[ci as int].wf(grid::volume(self.size@)));
            }
            if self.channels[ci].compression == Compression::Dense && self.is_uniform(ci) {
                let defval: u64 = self.channels[ci].data.get_u64(0);
                self.clear_channel(ci, defval);
            }
            ci = ci + 1;
        }
        assert(self@ =~= old(self)@.compressed());
    }

    /// Replaces every voxel of a channel by what `f` makes of it and of the
    /// voxel at the same place in `other`. Nothing happens where the extents
    /// differ.
    pub fn combine_channel<F: Fn(u64, u64) -> u64>(
        &mut self,
        other: &VoxelBuffer,
        channel_index: usize,
        f: F,
    )
        requires
            old(self).wf(),
            other.wf(),
            channel_index < MAX_CHANNELS,
            forall|a: u64, b: u64| #[trigger] call_requires(f, (a, b)),
        ensures
            final(self).wf(),
            ({
                let c = channel_index as int;
                let dense = old(self)@.channels[c].made_dense(grid::volume(old(self)@.size));
                let values = final(self)@.channels[c].values;
                if old(self)@.size != other@.size {
                    final(self)@ == old(self)@
                } else {
                    &&& final(self)@ == old(self)@.with_channel(c, dense.with_values(values))
                    &&& values.len() == grid::volume(old(self)@.size)
                    &&& forall|i: int|
                        0 <= i < values.len() ==> combined(
                            f,
                            dense.values[i],
                            other@.channels[c].at(i),
                            dense.depth,
                            #[trigger] values[i],
                        )
                }
            }),
    {
        if self.size != other.size {
            return;
        }
        let ghost c = channel_index as int;
        self.decompress_channel(channel_index);
        let ghost mid = *self;
        let ghost dense = old(self)@.channels[c].made_dense(grid::volume(old(self)@.size));
        proof {
            assert(self.channels@[c].wf(grid::volume(self.size@)));
            assert(self@.channels[c] == self.channels@[c]@);
            assert(other.channels@[c].wf(grid::volume(other.size@)));
            assert(other@.channels[c] == other.channels@[c]@);
        }
        let n: usize = self.channels[channel_index].data.len();
        let mut i: usize = 0;
        while i < n
            invariant
                i <= n,
                n == self.channels@[c].data@.len(),
                n == grid::volume(old(self)@.size),
                c == channel_index,
                channel_index < MAX_CHANNELS,
                self.only_data_differs(&mid, c),
                other.channels@[c].wf(grid::volume(old(self)@.size)),
                other@.channels[c] == other.channels@[c]@,
                dense.values == mid.channels@[c].data@,
                dense.depth == mid.channels@[c].data.width(),
                forall|a: u64, b: u64| #[trigger] call_requires(f, (a, b)),
                forall|k: int|
                    0 <= k < i ==> combined(
                        f,
                        dense.values[k],
                        other@.channels[c].at(k),
                        dense.depth,
                        #[trigger] self.channels@[c].data@[k],
                    ),
                forall|k: int|
                    i <= k < n ==> #[trigger] self.channels@[c].data@[k] == dense.values[k],
            decreases n - i,
        {
            let a: u64 = self.channels[channel_index].data.get_u64(i);
            let b: u64 = if other.channels[channel_index].compression == Compression::Uniform {
                other.channels[channel_index].defval
            } else {
                other.channels[channel_index].data.get_u64(i)
            };
            let r: u64 = f(a, b);
            self.channels[channel_index].data.set_u64(i, r);
            assert(combined(
                f,
                dense.values[i as int],
                other@.channels[c].at(i as int),
                dense.depth,
                self.channels@[c].data@[i as int],
            ));
            i = i + 1;
        }
        proof {
            self.lemma_channel_replaced(&mid, c);
            assert(self@.channels[c] == self.channels@[c]@);
            assert(self@ =~= old(self)@.with_channel(
                c,
                dense.with_values(self@.channels[c].values),
            ));
        }
    }

    /// Raw bytes of a channel; none for a uniform one.
    pub fn channel_bytes(&self, channel_index: usize) -> (r: &[u8])
        requires
            self.wf(),
            channel_index < MAX_CHANNELS,
        ensures
            ({
                let ch = self@.channels[channel_index as int];
                r@ == match ch.compression {
                    Compression::Uniform => Seq::<u8>::empty(),
                    Compression::Dense => channel::bytes_of(
                        ch.values,
                        ch.depth.bytes(),
                        channel::machine_is_little(),
                    ),
                }
            }),
    {
        let ghost c = channel_index as int;
        proof {
            assert(self.channels@[c].wf(grid::volume(self.size@)));
            assert(self@.channels[c] == self.channels@[c]@);
        }
        let r = self.channels[channel_index].data.as_bytes();
        proof {
            if self@.channels[c].compression == Compression::Uniform {
                let w = self.channels@[c].data.width().bytes();
                assert(self.channels@[c].data@.len() * w == 0) by (nonlinear_arith)
                    requires
                        self.channels@[c].data@.len() == 0,
                ;
                assert(r@ =~= Seq::<u8>::empty());
            }
        }
        r
    }

    /// Raw bytes of a channel that can be written. The channel becomes dense;
    /// its voxels are then what the bytes say. A slice keeps its length.
    pub fn channel_bytes_mut(&mut self, channel_index: usize) -> (r: &mut [u8])
        requires
            old(self).wf(),
            channel_index < MAX_CHANNELS,
        ensures
            ({
                let c = channel_index as int;
                let dense = old(self)@.channels[c].made_dense(grid::volume(old(self)@.size));
                &&& r@ == channel::bytes_of(
                    dense.values,
                    dense.depth.bytes(),
                    channel::machine_is_little(),
                )
                &&& final(r)@.len() == r@.len() ==> final(self).wf() && final(self)@ == old(
                    self,
                )@.with_channel(
                    c,
                    dense.with_values(
                        channel::words_of(
                            final(r)@,
                            dense.depth.bytes(),
                            channel::machine_is_little(),
                        ),
                    ),
                )
            }),
    {
        self.decompress_channel(channel_index);
        proof {
            let c = channel_index as int;
            let volume = grid::volume(self.size@);
            assert(self.channels@[c].wf(volume));
            assert(self@.channels[c] == self.channels@[c]@);
            self.lemma_any_data(c);
            let w = self@.channels[c].depth.bytes();
            assert(volume * w / w == volume) by (nonlinear_arith)
                requires
                    w > 0,
            ;
        }
        self.channels[channel_index].data.as_bytes_mut()
    }

    /// Mirrors a channel along an axis: 0 for X, 1 for Y, any other for Z.
    pub fn mirror(&mut self, channel_index: usize, axis: usize)
        requires
            old(self).wf(),
            channel_index < MAX_CHANNELS,
        ensures
            final(self).wf(),
            final(self)@ == old(self)@.mirrored(channel_index as int, axis as int),
    {
        let ghost c = channel_index as int;
        let size = self.size;
        proof {
            assert(self@.channels[c] == self.channels@[c]@);
            assert(self.channels@[c].wf(grid::volume(self.size@)));
            self.lemma_sizes();
        }
        if self.channels[channel_index].compression == Compression::Uniform {
            assert(self@ =~= old(self)@.mirrored(c, axis as int));
            return;
        }
        mirror_values(&mut self.channels[channel_index].data, size, axis);
        proof {
            self.lemma_channel_replaced(old(self), c);
            let moved = old(self)@.channels[c].rearranged(
                size@,
                |p: Cell| buffer_model::mirrored(size@, axis as int, p),
            );
            assert(self@.channels[c] == self.channels@[c]@);
            assert(self@.channels[c].values =~= moved.values);
            assert(self@ =~= old(self)@.mirrored(c, axis as int));
        }
    }

    /// Turns a channel by 90 degrees around an axis: 0 for X, 1 for Y, any
    /// other for Z.
    pub fn rotate_90(&mut self, channel_index: usize, axis: usize, clockwise: bool)
        requires
            old(self).wf(),
            channel_index < MAX_CHANNELS,
            old(self)@.channels[channel_index as int].compression == Compression::Dense
                && grid::volume(old(self)@.size) > 0 ==> buffer_model::square_around(
                old(self)@.size,
                axis as int,
            ),
        ensures
            final(self).wf(),
            final(self)@ == old(self)@.rotated(channel_index as int, axis as int, clockwise),
    {
        let ghost c = channel_index as int;
        let size = self.size;
        proof {
            assert(self@.channels[c] == self.channels@[c]@);
            assert(self.channels@[c].wf(grid::volume(self.size@)));
            self.lemma_sizes();
        }
        if self.channels[channel_index].compression == Compression::Uniform {
            assert(self@ =~= old(self)@.rotated(c, axis as int, clockwise));
            return;
        }
        rotate_values(&mut self.channels[channel_index].data, size, axis, clockwise);
        proof {
            self.lemma_channel_replaced(old(self), c);
            let moved = old(self)@.channels[c].rearranged(
                size@,
                |p: Cell| buffer_model::rotated(size@, axis as int, !clockwise, p),
            );
            assert(self@.channels[c] == self.channels@[c]@);
            assert(self@.channels[c].values =~= moved.values);
            assert(self@ =~= old(self)@.rotated(c, axis as int, clockwise));
        }
    }

    /// Copies a whole channel from a buffer of the same extent, where the
    /// channel has the same depth.
    pub fn copy_channel_from(&mut self, other: &VoxelBuffer, channel_index: usize)
        requires
            old(self).wf(),
            other.wf(),
            channel_index < MAX_CHANNELS,
            old(self)@.size == other@.size,
            old(self)@.channels[channel_index as int].depth
                == other@.channels[channel_index as int].depth,
        ensures
            final(self).wf(),
            final(self)@ == old(self)@.with_channel(
                channel_index as int,
                other@.channels[channel_index as int],
            ),
    {
        let ghost c = channel_index as int;
        let src = &other.channels[channel_index];
        proof {
            assert(src.wf(grid::volume(other.size@)));
            assert(other@.channels[c] == src@);
        }
        if src.compression == Compression::Dense {
            let data = src.data.clone();
            let dst = &mut self.channels[channel_index];
            free_channel_data(dst);
            dst.defval = src.defval;
            dst.compression = Compression::Dense;
            dst.size_in_bytes = src.size_in_bytes;
            dst.data = data;
            proof {
                self.lemma_channel_replaced(old(self), c);
                assert(self.channels@[c]@ =~= src@);
            }
            return;
        }
        let dst = &mut self.channels[channel_index];
        free_channel_data(dst);
        dst.defval = src.defval;
        dst.compression = Compression::Uniform;
        proof {
            self.lemma_channel_replaced(old(self), c);
            assert(src.data@ =~= Seq::<u64>::empty());
            assert(self.channels@[c]@ =~= src@);
        }
    }

    /// Copies every channel from a buffer of the same extent and depths.
    pub fn copy_channels_from(&mut self, other: &VoxelBuffer)
        requires
            old(self).wf(),
            other.wf(),
            old(self)@.size == other@.size,
            forall|c: int|
                0 <= c < MAX_CHANNELS ==> (#[trigger] old(self)@.channels[c]).depth
                    == other@.channels[c].depth,
        ensures
            final(self).wf(),
            final(self)@ == (BufferModel { channels: other@.channels, ..old(self)@ }),
    {
        let mut ci: usize = 0;
        while ci < MAX_CHANNELS
            invariant
                ci <= MAX_CHANNELS,
                self.wf(),
                other.wf(),
                self@ == (BufferModel { channels: self@.channels, ..old(self)@ }),
                self@.channels.len() == MAX_CHANNELS,
                other@.channels.len() == MAX_CHANNELS,
                old(self)@.size == other@.size,
                forall|c: int|
                    0 <= c < MAX_CHANNELS ==> (#[trigger] self@.channels[c]).depth
                        == other@.channels[c].depth,
                forall|c: int| 0 <= c < ci ==> #[trigger] self@.channels[c] == other@.channels[c],
            decreases MAX_CHANNELS - ci,
        {
            self.copy_channel_from(other, ci);
            ci = ci + 1;
        }
        assert(self@.channels =~= other@.channels);
    }

    /// Copies extent, voxels, depths and metadata into `dst`.
    pub fn copy_to(&self, dst: &mut VoxelBuffer)
        requires
            self.wf(),
            old(dst).wf(),
        ensures
            final(dst).wf(),
            final(dst)@ == (BufferModel { allocator: old(dst)@.allocator, ..self@ }),
    {
        dst.create(self.size);
        let mut ci: usize = 0;
        while ci < MAX_CHANNELS
            invariant
                ci <= MAX_CHANNELS,
                self.wf(),
                dst.wf(),
                dst@.size == self@.size,
                dst@.allocator == old(dst)@.allocator,
                dst@.channels.len() == MAX_CHANNELS,
                forall|c: int|
                    0 <= c < ci ==> (#[trigger] dst@.channels[c]).depth == self@.channels[c].depth,
            decreases MAX_CHANNELS - ci,
        {
            dst.set_channel_depth(ci, self.channel_depth(ci));
            ci = ci + 1;
        }
        dst.copy_channels_from(self);
        dst.block_metadata = self.block_metadata.clone();
        let copy = metadata::copy_metadata(&self.voxel_metadata);
        proof {
            assert(forall|i: int|
                0 <= i < MAX_CHANNELS ==> #[trigger] dst.channels@[i].wf(grid::volume(dst.size@)));
            assert(dst@.channels == self@.channels);
        }
        let ghost mid = *dst;
        dst.voxel_metadata = copy;
        proof {
            assert(dst.channels == mid.channels);
            assert(dst@.channels =~= mid@.channels);
            assert(forall|i: int|
                0 <= i < MAX_CHANNELS ==> #[trigger] dst.channels@[i] == mid.channels@[i]);
        }
    }

    /// A copy of the whole buffer with its memory pool.
    pub fn copy_to_owned(&self) -> (dst: VoxelBuffer)
        requires
            self.wf(),
        ensures
            dst.wf(),
            dst@ == self@,
            dst.attached_pool() == self.attached_pool(),
    {
        let mut dst = VoxelBuffer::new(self.allocator);
        self.copy_to(&mut dst);
        match &self.pool {
            Some(pool) => dst.with_pool(pool.clone()),
            None => VoxelBuffer { pool: None, ..dst },
        }
    }

    /// A copy of the whole buffer with its memory pool, unless memory for its
    /// voxels cannot be had. Where no channel stores any, none is needed.
    pub(crate) fn try_copy_to_owned(&self) -> (r: Result<
        VoxelBuffer,
        std::collections::TryReserveError,
    >)
        requires
            self.wf(),
        ensures
            r matches Ok(dst) ==> dst.wf() && dst@ == self@ && dst.attached_pool()
                == self.attached_pool(),
            (forall|c: int|
                0 <= c < MAX_CHANNELS ==> (#[trigger] self@.channels[c]).values.len() == 0)
                ==> r is Ok,
    {
        let mut dst = VoxelBuffer::new(self.allocator);
        dst.size = self.size;
        dst.pool = match &self.pool {
            Some(pool) => Some(pool.clone()),
            None => None,
        };
        let mut ci: usize = 0;
        while ci < MAX_CHANNELS
            invariant
                ci <= MAX_CHANNELS,
                self.wf(),
                dst.size == self.size,
                dst.allocator == self.allocator,
                dst.pool == self.pool,
                forall|c: int|
                    0 <= c < ci ==> (#[trigger] dst.channels@[c])@ == self.channels@[c]@
                        && dst.channels@[c].wf(grid::volume(self.size@)),
            decreases MAX_CHANNELS - ci,
        {
            assert(self@.channels[ci as int].values == self.channels@[ci as int].data@);
            let data = match self.channels[ci].data.try_clone() {
                Ok(data) => data,
                Err(e) => return Err(e),
            };
            assert(self.channels@[ci as int].wf(grid::volume(self.size@)));
            let defval: u64 = self.channels[ci].defval;
            let depth = self.channels[ci].depth;
            let compression = self.channels[ci].compression;
            let size_in_bytes: u32 = self.channels[ci].size_in_bytes;
            let target = &mut dst.channels[ci];
            target.data = data;
            target.defval = defval;
            target.depth = depth;
            target.compression = compression;
            target.size_in_bytes = size_in_bytes;
            ci = ci + 1;
        }
        dst.block_metadata = self.block_metadata.clone();
        dst.voxel_metadata = metadata::copy_metadata(&self.voxel_metadata);
        assert(dst@.channels =~= self@.channels);
        Ok(dst)
    }

    /// Copies the box between two corners of a channel to `dst_min`, clipped to
    /// both buffers. The channel has the same depth in both.
    pub fn copy_channel_from_area(
        &mut self,
        other: &VoxelBuffer,
        src_min: Vector3i,
        src_max: Vector3i,
        dst_min: Vector3i,
        channel_index: usize,
    )
        requires
            old(self).wf(),
            other.wf(),
            channel_index < MAX_CHANNELS,
            old(self)@.channels[channel_index as int].depth
                == other@.channels[channel_index as int].depth,
            funcs::clip_region_fits(
                src_min@.min(src_max@),
                src_min@.max(src_max@),
                other@.size,
                dst_min@,
                old(self)@.size,
            ),
            ({
                let (lo, hi, to) = funcs::copy_extent(
                    src_min@,
                    src_max@,
                    other@.size,
                    dst_min@,
                    old(self)@.size,
                );
                hi.minus(lo).fits()
            }),
        ensures
            final(self).wf(),
            final(self)@ == old(self)@.with_channel(
                channel_index as int,
                old(self)@.channels[channel_index as int].area_copied(
                    old(self)@.size,
                    other@.channels[channel_index as int],
                    other@.size,
                    src_min@,
                    src_max@,
                    dst_min@,
                ),
            ),
    {
        let ghost c = channel_index as int;
        let src = &other.channels[channel_index];
        proof {
            assert(src.wf(grid::volume(other.size@)));
            assert(other@.channels[c] == src@);
            assert(self@.channels[c] == self.channels@[c]@);
            assert(self@ =~= self@.with_channel(c, self@.channels[c]));
            funcs::lemma_clip_in_bounds(
                src_min@.min(src_max@),
                src_min@.max(src_max@),
                other@.size,
                dst_min@,
                self@.size,
            );
        }
        let mut lo = src_min;
        let mut hi = src_max;
        let mut to = dst_min;
        Vector3i::sort_min_max(&mut lo, &mut hi);
        funcs::clip_copy_region(&mut lo, &mut hi, other.size, &mut to, self.size);
        let area = hi.minus(lo);
        if area.x <= 0 || area.y <= 0 || area.z <= 0 {
            return;
        }
        if src.compression == Compression::Dense {
            let size = self.size;
            self.decompress_channel(channel_index);
            let ghost mid = *self;
            proof {
                assert(self.channels@[c].wf(grid::volume(self.size@)));
                assert(self@.channels[c] == self.channels@[c]@);
            }
            channel::copy_channel_region_typed(
                &mut self.channels[channel_index].data,
                size,
                to,
                &src.data,
                other.size,
                lo,
                hi,
            );
            proof {
                self.lemma_channel_replaced(&mid, c);
                assert(self.channels@[c]@ =~= old(self)@.channels[c].area_copied(
                    old(self)@.size,
                    src@,
                    other@.size,
                    src_min@,
                    src_max@,
                    dst_min@,
                ));
                assert(self@ =~= old(self)@.with_channel(c, self.channels@[c]@));
            }
            return;
        }
        self.fill_area(src.defval, to, to.plus(area), channel_index);
    }

    /// Samples every second voxel of a box of `self` into `dst`, for all
    /// channels: destination voxel `p` gets source voxel
    /// `src_min + 2 * (p - dst_min)`. A channel that is uniform with the same
    /// value in both buffers is left alone.
    pub fn downscale_to(
        &self,
        dst: &mut VoxelBuffer,
        src_min: Vector3i,
        src_max: Vector3i,
        dst_min: Vector3i,
    )
        requires
            self.wf(),
            old(dst).wf(),
            old(dst)@.downscale_in_bounds(self@, src_min@, src_max@, dst_min@),
            dst_min@.plus(
                src_max@.clamp(Cell::zero(), self@.size).minus(
                    src_min@.clamp(Cell::zero(), self@.size.minus(Cell::splat(1))),
                ).over(2),
            ).fits(),
        ensures
            final(dst).wf(),
            final(dst)@ == old(dst)@.downscaled_from(self@, src_min@, src_max@, dst_min@),
    {
        let one = Vector3i::splat(1);
        let lo = src_min.clamp(Vector3i::zero(), self.size.minus(one));
        let hi = src_max.clamp(Vector3i::zero(), self.size);
        let dst_max_raw = dst_min.plus(hi.minus(lo).floor_div(2));
        let to = dst_min.clamp(Vector3i::zero(), dst.size.minus(one));
        let end = dst_max_raw.clamp(Vector3i::zero(), dst.size);
        let ghost extent = buffer_model::downscale_extent(
            self@.size,
            dst@.size,
            src_min@,
            src_max@,
            dst_min@,
        );
        let dst_size = dst.size;
        let ghost before = dst@;
        proof {
            assert(extent == (lo@, to@, end@));
        }
        let mut ci: usize = 0;
        while ci < MAX_CHANNELS
            invariant
                ci <= MAX_CHANNELS,
                self.wf(),
                dst.wf(),
                extent == (lo@, to@, end@),
                extent == buffer_model::downscale_extent(
                    self@.size,
                    before.size,
                    src_min@,
                    src_max@,
                    dst_min@,
                ),
                dst_size@ == before.size,
                before.downscale_in_bounds(self@, src_min@, src_max@, dst_min@),
                before.channels.len() == MAX_CHANNELS,
                dst@ == (BufferModel { channels: dst@.channels, ..before }),
                dst@.channels.len() == MAX_CHANNELS,
                forall|k: int|
                    0 <= k < ci ==> #[trigger] dst@.channels[k] == before.channel_downscaled_from(
                        self@,
                        src_min@,
                        src_max@,
                        dst_min@,
                        k,
                    ),
                forall|k: int|
                    ci <= k < MAX_CHANNELS ==> #[trigger] dst@.channels[k] == before.channels[k],
            decreases MAX_CHANNELS - ci,
        {
            let src_compression = self.channel_compression(ci);
            let src_defval: u64 = self.channel_default(ci);
            let ghost i = ci as int;
            let ghost mid = dst@;
            if src_compression == Compression::Uniform && dst.channel_compression(ci)
                == Compression::Uniform && src_defval == dst.channel_default(ci) {
                ci = ci + 1;
                continue ;
            }
            proof {
                assert(!before.downscale_skips(self@, i));
                dst.lemma_wf();
            }
            let sample = |pos: Vector3i, _value: u64| -> (r: u64)
                requires
                    pos@.within(
                        funcs::fill_extent(dst_size@, to@, end@).0,
                        funcs::fill_extent(dst_size@, to@, end@).1,
                    ),
                ensures
                    r == self@.value(
                        ci as int,
                        buffer_model::downscale_source((lo@, to@, end@), pos@),
                    ),
                {
                    let src_pos = lo.plus(pos.minus(to).times(2));
                    assert(src_pos@ == buffer_model::downscale_source((lo@, to@, end@), pos@));
                    assert(buffer_model::downscale_source((lo@, to@, end@), pos@).in_grid(
                        self@.size,
                    ));
                    if src_compression == Compression::Uniform {
                        src_defval
                    } else {
                        self.get_voxel(src_pos.x, src_pos.y, src_pos.z, ci)
                    }
                };
            dst.read_write_area(to, end, ci, sample);
            proof {
                let depth = mid.channels[i].depth;
                let wrote = |p: Vector3i, k: int, new: u64|
                    exists|r: u64|
                        #[trigger] call_ensures(sample, (p, dense_values(mid, i)[k]), r) && new
                            == depth.truncated(r);
                let f = |c: Cell|
                    depth.truncated(self@.value(i, buffer_model::downscale_source(extent, c)));
                lemma_area_rewritten(mid, dst@, i, to@, end@, wrote, f);
                assert(dst@.channels[i] == before.channel_downscaled_from(
                    self@,
                    src_min@,
                    src_max@,
                    dst_min@,
                    i,
                ));
            }
            ci = ci + 1;
        }
        assert(dst@ =~= before.downscaled_from(self@, src_min@, src_max@, dst_min@));
    }

    /// Pastes the part of `src` from `src_min` on, in the channels that
    /// `channel_mask` selects: source voxel `s` lands at
    /// `dst_min + (s - src_min)`, if that is inside. Metadata moves with it.
    pub fn paste(
        &mut self,
        src: &VoxelBuffer,
        src_min: Vector3i,
        dst_min: Vector3i,
        channel_mask: u8,
    )
        requires
            old(self).wf(),
            src.wf(),
        ensures
            final(self).wf(),
            final(self)@ == old(self)@.voxels_pasted(
                src@,
                src_min@,
                dst_min@,
                channel_mask,
            ).metadata_pasted(src@, src_min@, dst_min@),
    {
        let size = self.size;
        let ghost before = self@;
        let ghost pasted = before.voxels_pasted(src@, src_min@, dst_min@, channel_mask);
        proof {
            self.lemma_wf();
            src.lemma_wf();
        }
        // The part of the destination that the moved source covers.
        let lo = Vector3i::new(
            paste_bound(dst_min.x, src_min.x, at_least_zero(src_min.x), size.x),
            paste_bound(dst_min.y, src_min.y, at_least_zero(src_min.y), size.y),
            paste_bound(dst_min.z, src_min.z, at_least_zero(src_min.z), size.z),
        );
        let hi = Vector3i::new(
            paste_bound(dst_min.x, src_min.x, src.size.x, size.x),
            paste_bound(dst_min.y, src_min.y, src.size.y, size.y),
            paste_bound(dst_min.z, src_min.z, src.size.z, size.z),
        );
        let mut ci: usize = 0;
        while ci < MAX_CHANNELS
            invariant
                ci <= MAX_CHANNELS,
                self.wf(),
                src.wf(),
                size@ == before.size,
                before.wf(),
                src@.wf(),
                lo@ == dst_min@.minus(src_min@).plus(src_min@.max(Cell::zero())).clamp(
                    Cell::zero(),
                    before.size,
                ),
                hi@ == dst_min@.minus(src_min@).plus(src@.size).clamp(Cell::zero(), before.size),
                before == old(self)@,
                pasted == before.voxels_pasted(src@, src_min@, dst_min@, channel_mask),
                self@ == (BufferModel { channels: self@.channels, ..before }),
                self@.channels.len() == MAX_CHANNELS,
                before.channels.len() == MAX_CHANNELS,
                forall|k: int| 0 <= k < ci ==> #[trigger] self@.channels[k] == pasted.channels[k],
                forall|k: int|
                    ci <= k < MAX_CHANNELS ==> #[trigger] self@.channels[k] == before.channels[k],
            decreases MAX_CHANNELS - ci,
        {
            let ghost i = ci as int;
            if (channel_mask >> (ci as u8)) & 1 == 1 {
                self.decompress_channel(ci);
                let ghost mid = self@;
                proof {
                    self.lemma_wf();
                }
                if lo.x < hi.x && lo.y < hi.y && lo.z < hi.z {
                    let take = |pos: Vector3i, _value: u64| -> (r: u64)
                        requires
                            pos@.within(lo@, hi@),
                        ensures
                            r == src@.value(ci as int, pos@.minus(dst_min@).plus(src_min@)),
                        {
                            if src.channel_compression(ci) == Compression::Uniform {
                                src.channel_default(ci)
                            } else {
                                let x: i64 = pos.x as i64 - dst_min.x as i64 + src_min.x as i64;
                                let y: i64 = pos.y as i64 - dst_min.y as i64 + src_min.y as i64;
                                let z: i64 = pos.z as i64 - dst_min.z as i64 + src_min.z as i64;
                                assert(pos@.minus(dst_min@).plus(src_min@).in_grid(src@.size));
                                src.get_voxel(x as i32, y as i32, z as i32, ci)
                            }
                        };
                    self.read_write_area(lo, hi, ci, take);
                    proof {
                        let depth = mid.channels[i].depth;
                        let wrote = |p: Vector3i, k: int, new: u64|
                            exists|r: u64|
                                #[trigger] call_ensures(take, (p, dense_values(mid, i)[k]), r)
                                    && new == depth.truncated(r);
                        let f = |d: Cell|
                            depth.truncated(src@.value(i, d.minus(dst_min@).plus(src_min@)));
                        lemma_area_rewritten(mid, self@, i, lo@, hi@, wrote, f);
                    }
                }
                proof {
                    lemma_paste_region(
                        before,
                        src@,
                        src_min@,
                        dst_min@,
                        channel_mask,
                        i,
                        lo@,
                        hi@,
                        self@.channels[i].values,
                    );
                }
            }
            ci = ci + 1;
        }
        assert(self@ =~= pasted);
        self.copy_voxel_metadata_from(src, src_min, dst_min);
    }

    /// Sets the metadata of the whole buffer.
    pub fn set_block_metadata(&mut self, metadata: MetadataValue)
        requires
            old(self).wf(),
        ensures
            final(self).wf(),
            final(self)@ == (BufferModel { block_metadata: metadata@, ..old(self)@ }),
    {
        self.block_metadata = metadata;
        proof {
            assert(forall|i: int|
                0 <= i < MAX_CHANNELS ==> #[trigger] self.channels@[i] == old(self).channels@[i]);
            assert(self@.channels =~= old(self)@.channels);
        }
    }

    /// The metadata of the whole buffer.
    pub fn block_metadata(&self) -> (m: &MetadataValue)
        ensures
            m@ == self@.block_metadata,
    {
        &self.block_metadata
    }

    /// Only the voxel metadata of `self` differs from that of `before`.
    proof fn lemma_metadata_replaced(&self, before: &VoxelBuffer)
        requires
            before.wf(),
            self.size == before.size,
            self.allocator == before.allocator,
            self.block_metadata == before.block_metadata,
            self.channels == before.channels,
            self.voxel_metadata.wf(),
        ensures
            self.wf(),
            self@ == (BufferModel {
                voxel_metadata: metadata::metadata_model(self.voxel_metadata@),
                ..before@
            }),
    {
        assert(forall|i: int|
            0 <= i < MAX_CHANNELS ==> #[trigger] self.channels@[i] == before.channels@[i]);
        assert(self@.channels =~= before@.channels);
    }

    /// Sets the metadata of one voxel; the empty value removes it.
    pub fn set_voxel_metadata(&mut self, position: Vector3i, metadata: MetadataValue)
        requires
            old(self).wf(),
        ensures
            final(self).wf(),
            final(self)@ == (BufferModel {
                voxel_metadata: if metadata@ is Nil {
                    old(self)@.voxel_metadata.remove(position)
                } else {
                    old(self)@.voxel_metadata.insert(position, metadata@)
                },
                ..old(self)@
            }),
    {
        if metadata.is_nil() {
            let _ = self.voxel_metadata.remove(position);
            proof {
                self.lemma_metadata_replaced(old(self));
                assert(self@.voxel_metadata =~= old(self)@.voxel_metadata.remove(position));
            }
            return;
        }
        let _ = self.voxel_metadata.insert(position, metadata);
        proof {
            self.lemma_metadata_replaced(old(self));
            assert(self@.voxel_metadata =~= old(self)@.voxel_metadata.insert(position, metadata@));
        }
    }

    /// The metadata of one voxel, if it has any.
    pub fn voxel_metadata(&self, position: Vector3i) -> (m: Option<&MetadataValue>)
        ensures
            m is Some <==> self@.voxel_metadata.contains_key(position),
            m matches Some(v) ==> v@ == self@.voxel_metadata[position],
    {
        self.voxel_metadata.get(position)
    }

    /// Removes the metadata of one voxel.
    pub fn clear_voxel_metadata(&mut self, position: Vector3i)
        requires
            old(self).wf(),
        ensures
            final(self).wf(),
            final(self)@ == (BufferModel {
                voxel_metadata: old(self)@.voxel_metadata.remove(position),
                ..old(self)@
            }),
    {
        let _ = self.voxel_metadata.remove(position);
        proof {
            self.lemma_metadata_replaced(old(self));
            assert(self@.voxel_metadata =~= old(self)@.voxel_metadata.remove(position));
        }
    }

    /// Removes the metadata of every voxel. The buffer's own stays.
    pub fn clear_all_voxel_metadata(&mut self)
        requires
            old(self).wf(),
        ensures
            final(self).wf(),
            final(self)@ == (BufferModel { voxel_metadata: Map::empty(), ..old(self)@ }),
    {
        self.voxel_metadata.clear();
        proof {
            self.lemma_metadata_replaced(old(self));
            assert(self@.voxel_metadata =~= Map::empty());
        }
    }

    /// True when at least one voxel has metadata.
    pub fn has_voxel_metadata(&self) -> (b: bool)
        requires
            self.wf(),
        ensures
            b == (exists|p: Vector3i| #[trigger] self@.voxel_metadata.contains_key(p)),
    {
        let empty = self.voxel_metadata.is_empty();
        proof {
            if !empty {
                if forall|p: Vector3i| !#[trigger] self@.voxel_metadata.contains_key(p) {
                    assert forall|p: Vector3i| !self.voxel_metadata@.contains_key(p) by {
                        assert(!self@.voxel_metadata.contains_key(p));
                    }
                    assert(self.voxel_metadata@ =~= Map::empty());
                }
            }
        }
        !empty
    }

    /// Calls `f` on every voxel that has metadata, each once, in no particular
    /// order, and returns the results in the order of the calls.
    pub fn for_each_voxel_metadata<R, F: Fn(Vector3i, &MetadataValue) -> R>(&self, f: F) -> (r: Vec<
        R,
    >)
        requires
            self.wf(),
            forall|p: Vector3i, v: MetadataValue| #[trigger] call_requires(f, (p, &v)),
        ensures
            exists|visited: Seq<(Vector3i, MetadataValue)>|
                #![trigger visits(self@, visited)]
                visits(self@, visited) && r@.len() == visited.len() && forall|i: int|
                    0 <= i < r@.len() ==> call_ensures(
                        f,
                        (visited[i].0, &visited[i].1),
                        #[trigger] r@[i],
                    ),
    {
        let positions = self.voxel_metadata.positions();
        let mut r: Vec<R> = Vec::new();
        let ghost mut visited: Seq<(Vector3i, MetadataValue)> = Seq::empty();
        let mut i: usize = 0;
        while i < positions.len()
            invariant
                i <= positions@.len(),
                self.wf(),
                positions@.no_duplicates(),
                positions@.to_set() == self.voxel_metadata@.dom(),
                forall|p: Vector3i, v: MetadataValue| #[trigger] call_requires(f, (p, &v)),
                r@.len() == i,
                visited.len() == i,
                forall|k: int|
                    0 <= k < i ==> (#[trigger] visited[k]).0 == positions@[k] && visited[k].1
                        == self.voxel_metadata@[positions@[k]],
                forall|k: int|
                    0 <= k < i ==> call_ensures(f, (visited[k].0, &visited[k].1), #[trigger] r@[k]),
            decreases positions@.len() - i,
        {
            let p = positions[i];
            assert(positions@.to_set().contains(p));
            match self.voxel_metadata.get(p) {
                Some(v) => {
                    let result = f(p, v);
                    r.push(result);
                    proof {
                        visited = visited.push((p, *v));
                    }
                },
                None => {
                    assert(false);
                },
            }
            i = i + 1;
        }
        proof {
            lemma_visits(self, positions@, visited);
        }
        r
    }

    /// Calls `f` on every voxel that has metadata and lies in the box between
    /// two corners, each once, in no particular order, and returns the results
    /// in the order of the calls.
    pub fn for_each_voxel_metadata_in_area<R, F: Fn(Vector3i, &MetadataValue) -> R>(
        &self,
        min: Vector3i,
        max: Vector3i,
        f: F,
    ) -> (r: Vec<R>)
        requires
            self.wf(),
            forall|p: Vector3i, v: MetadataValue| #[trigger] call_requires(f, (p, &v)),
        ensures
            exists|visited: Seq<(Vector3i, MetadataValue)>|
                #![trigger visits_area(self@, visited, min@.min(max@), min@.max(max@))]
                visits_area(self@, visited, min@.min(max@), min@.max(max@)) && r@.len()
                    == visited.len() && forall|i: int|
                    0 <= i < r@.len() ==> call_ensures(
                        f,
                        (visited[i].0, &visited[i].1),
                        #[trigger] r@[i],
                    ),
    {
        let mut lo = min;
        let mut hi = max;
        Vector3i::sort_min_max(&mut lo, &mut hi);
        let positions = self.voxel_metadata.positions();
        let mut r: Vec<R> = Vec::new();
        let ghost mut visited: Seq<(Vector3i, MetadataValue)> = Seq::empty();
        let mut i: usize = 0;
        while i < positions.len()
            invariant
                i <= positions@.len(),
                self.wf(),
                positions@.no_duplicates(),
                positions@.to_set() == self.voxel_metadata@.dom(),
                forall|p: Vector3i, v: MetadataValue| #[trigger] call_requires(f, (p, &v)),
                r@.len() == visited.len(),
                forall|k: int|
                    0 <= k < visited.len() ==> self.voxel_metadata@.contains_key(
                        (#[trigger] visited[k]).0,
                    ) && visited[k].1 == self.voxel_metadata@[visited[k].0]
                        && visited[k].0@.within(lo@, hi@),
                forall|j: int, k: int|
                    0 <= j < visited.len() && i <= k < positions@.len() ==> (
                    #[trigger] visited[j]).0 != #[trigger] positions@[k],
                forall|j: int, k: int|
                    0 <= j < k < visited.len() ==> (#[trigger] visited[j]).0 != (
                    #[trigger] visited[k]).0,
                forall|k: int|
                    0 <= k < i && (#[trigger] positions@[k])@.within(lo@, hi@) ==> exists|j: int|
                        0 <= j < visited.len() && (#[trigger] visited[j]).0 == positions@[k],
                forall|k: int|
                    0 <= k < r@.len() ==> call_ensures(
                        f,
                        (visited[k].0, &visited[k].1),
                        #[trigger] r@[k],
                    ),
            decreases positions@.len() - i,
        {
            let p = positions[i];
            assert(positions@.to_set().contains(p));
            if point_in_half_open_box(p, lo, hi) {
                match self.voxel_metadata.get(p) {
                    Some(v) => {
                        let result = f(p, v);
                        r.push(result);
                        proof {
                            let before = visited;
                            visited = visited.push((p, *v));
                            assert(visited[before.len() as int].0 == p);
                            assert forall|k: int| 0 <= k < i + 1 && (#[trigger] positions@[k])@.within(
                                lo@,
                                hi@,
                            ) implies exists|j: int|
                                0 <= j < visited.len() && (#[trigger] visited[j]).0
                                    == positions@[k] by {
                                if k < i {
                                    let j = choose|j: int|
                                        0 <= j < before.len() && (#[trigger] before[j]).0
                                            == positions@[k];
                                    assert(visited[j].0 == positions@[k]);
                                }
                            }
                        }
                    },
                    None => {
                        assert(false);
                    },
                }
            }
            i = i + 1;
        }
        proof {
            assert forall|p: Vector3i|
                self@.voxel_metadata.contains_key(p) && p@.within(
                    lo@,
                    hi@,
                ) implies exists|j: int|
                0 <= j < visited.len() && (#[trigger] visited[j]).0 == p by {
                assert(self.voxel_metadata@.contains_key(p));
                assert(positions@.to_set().contains(p));
                let k = choose|k: int| 0 <= k < positions@.len() && positions@[k] == p;
                assert(positions@[k]@.within(lo@, hi@));
            }
            assert(visits_area(self@, visited, lo@, hi@));
        }
        r
    }

    /// The first position after `start` in ZXY order, inside the box between
    /// two corners, that has metadata.
    pub fn next_voxel_metadata_pos_in_area(
        &self,
        min: Vector3i,
        max: Vector3i,
        start: Vector3i,
    ) -> (r: Option<Vector3i>)
        requires
            self.wf(),
        ensures
            r is Some <==> exists|p: Vector3i| #[trigger]
                is_next_candidate(self@, min@.min(max@), min@.max(max@), start, p),
            r matches Some(p) ==> is_next_candidate(
                self@,
                min@.min(max@),
                min@.max(max@),
                start,
                p,
            ) && forall|q: Vector3i| #[trigger]
                is_next_candidate(self@, min@.min(max@), min@.max(max@), start, q) ==> q == p
                    || p@.before(q@),
    {
        let mut lo = min;
        let mut hi = max;
        Vector3i::sort_min_max(&mut lo, &mut hi);
        let positions = self.voxel_metadata.positions();
        let mut best: Option<Vector3i> = None;
        let mut i: usize = 0;
        while i < positions.len()
            invariant
                i <= positions@.len(),
                positions@.to_set() == self.voxel_metadata@.dom(),
                best is None ==> forall|k: int|
                    0 <= k < i ==> !is_next_candidate(
                        self@,
                        lo@,
                        hi@,
                        start,
                        #[trigger] positions@[k],
                    ),
                best matches Some(b) ==> is_next_candidate(self@, lo@, hi@, start, b)
                    && forall|k: int|
                    0 <= k < i && is_next_candidate(
                        self@,
                        lo@,
                        hi@,
                        start,
                        #[trigger] positions@[k],
                    ) ==> positions@[k] == b || b@.before(positions@[k]@),
            decreases positions@.len() - i,
        {
            let p = positions[i];
            assert(positions@.to_set().contains(p));
            if point_in_half_open_box(p, lo, hi) && metadata_pos_after(p, start) {
                match best {
                    None => {
                        best = Some(p);
                    },
                    Some(current) => {
                        if metadata_pos_after(current, p) {
                            best = Some(p);
                        }
                    },
                }
            }
            i = i + 1;
        }
        proof {
            assert forall|q: Vector3i| is_next_candidate(self@, lo@, hi@, start, q) implies exists|
                k: int,
            | 0 <= k < positions@.len() && #[trigger] positions@[k] == q by {
                assert(self.voxel_metadata@.contains_key(q));
                assert(positions@.to_set().contains(q));
            }
        }
        best
    }

    /// Copies the metadata of `src` that a move by `dst_min - src_min` brings
    /// inside this buffer.
    pub fn copy_voxel_metadata_from(
        &mut self,
        src: &VoxelBuffer,
        src_min: Vector3i,
        dst_min: Vector3i,
    )
        requires
            old(self).wf(),
            src.wf(),
        ensures
            final(self).wf(),
            final(self)@ == old(self)@.metadata_pasted(src@, src_min@, dst_min@),
    {
        let positions = src.voxel_metadata.positions();
        let src_size = src.size;
        let dst_size = self.size;
        let ghost before = self@;
        let mut i: usize = 0;
        while i < positions.len()
            invariant
                i <= positions@.len(),
                src.wf(),
                self.wf(),
                before == old(self)@,
                src_size@ == src@.size,
                dst_size@ == before.size,
                positions@.to_set() == src.voxel_metadata@.dom(),
                self@ == (BufferModel { voxel_metadata: self@.voxel_metadata, ..before }),
                self@.voxel_metadata == metadata_pasted_from(
                    before,
                    src@,
                    src_min@,
                    dst_min@,
                    positions@.take(i as int).to_set(),
                ),
            decreases positions@.len() - i,
        {
            let q = positions[i];
            assert(positions@.to_set().contains(q));
            let x: i64 = dst_min.x as i64 + (q.x as i64 - src_min.x as i64);
            let y: i64 = dst_min.y as i64 + (q.y as i64 - src_min.y as i64);
            let z: i64 = dst_min.z as i64 + (q.z as i64 - src_min.z as i64);
            let inside = point_in_half_open_box(q, src_min, src_size) && 0 <= x && x
                < dst_size.x as i64 && 0 <= y && y < dst_size.y as i64 && 0 <= z && z
                < dst_size.z as i64;
            let ghost done = positions@.take(i as int).to_set();
            proof {
                crate::collections::lemma_take_to_set(positions@, i as int);
            }
            if inside {
                let p = Vector3i::new(x as i32, y as i32, z as i32);
                match src.voxel_metadata.get(q) {
                    Some(v) => {
                        let ghost mid = *self;
                        let copy = v.clone();
                        let _ = self.voxel_metadata.insert(p, copy);
                        proof {
                            self.lemma_metadata_replaced(&mid);
                            assert(self@.voxel_metadata =~= mid@.voxel_metadata.insert(p, v@));
                            lemma_metadata_step(
                                before,
                                src@,
                                src_min@,
                                dst_min@,
                                done,
                                p,
                                q,
                            );
                        }
                    },
                    None => {
                        assert(false);
                    },
                }
            } else {
                proof {
                    lemma_metadata_skip(before, src@, src_min@, dst_min@, done, q);
                }
            }
            i = i + 1;
        }
        proof {
            assert(positions@.take(i as int) =~= positions@);
            assert(self@.voxel_metadata =~= before.metadata_pasted(
                src@,
                src_min@,
                dst_min@,
            ).voxel_metadata);
        }
    }

    /// Whatever is stored in a dense channel, the buffer stays well-formed.
    proof fn lemma_any_data(&self, c: int)
        requires
            self.wf(),
            0 <= c < MAX_CHANNELS,
        ensures
            forall|after: VoxelBuffer|
                #![trigger after.wf()]
                #![trigger after.view()]
                after.only_data_differs(self, c) ==> after.wf() && after@ == self@.with_channel(
                    c,
                    ChannelModel { values: after.channels@[c].data@, ..self@.channels[c] },
                ),
    {
        assert forall|after: VoxelBuffer|
            #![trigger after.wf()]
            #![trigger after.view()]
            after.only_data_differs(self, c) implies after.wf() && after@ == self@.with_channel(
            c,
            ChannelModel { values: after.channels@[c].data@, ..self@.channels[c] },
        ) by {
            assert(self.channels@[c].wf(grid::volume(self.size@)));
            assert(self@.channels[c] == self.channels@[c]@);
            after.lemma_channel_replaced(self, c);
        }
    }

    /// `self` is `before` except for the stored values of channel `c`, which
    /// still have their number and depth.
    spec fn only_data_differs(&self, before: &VoxelBuffer, c: int) -> bool {
        &&& self.size == before.size
        &&& self.allocator == before.allocator
        &&& self.block_metadata == before.block_metadata
        &&& self.voxel_metadata == before.voxel_metadata
        &&& self.channels@ =~= before.channels@.update(c, self.channels@[c])
        &&& self.channels@[c].defval == before.channels@[c].defval
        &&& self.channels@[c].depth == before.channels@[c].depth
        &&& self.channels@[c].compression == before.channels@[c].compression
        &&& self.channels@[c].size_in_bytes == before.channels@[c].size_in_bytes
        &&& self.channels@[c].data.width() == before.channels@[c].data.width()
        &&& self.channels@[c].data@.len() == before.channels@[c].data@.len()
    }
}

/// The values of channel `c`, one per voxel.
pub open spec fn dense_values(b: BufferModel, c: int) -> Seq<u64> {
    b.channels[c].made_dense(grid::volume(b.size)).values
}

/// `new` is a result of `f` on `a` and `b`, truncated to `depth`.
pub open spec fn combined<F: Fn(u64, u64) -> u64>(
    f: F,
    a: u64,
    b: u64,
    depth: ChannelDepth,
    new: u64,
) -> bool {
    exists|r: u64| #[trigger] call_ensures(f, (a, b), r) && new == depth.truncated(r)
}

/// What is read beside a write to channel `c`: the value of channel `rc` at
/// index `i` before the write.
pub open spec fn read_value(b: BufferModel, c: int, rc: int, i: int) -> u64 {
    if rc == c {
        dense_values(b, c)[i]
    } else {
        b.channels[rc].at(i)
    }
}

/// The box of `new_values` before `cursor` holds values that `wrote` admits;
/// all other values are still those of `dense`.
pub open spec fn partly_rewritten(
    dense: Seq<u64>,
    new_values: Seq<u64>,
    size: Cell,
    lo: Cell,
    hi: Cell,
    cursor: Cell,
    wrote: spec_fn(Vector3i, int, u64) -> bool,
) -> bool {
    &&& new_values.len() == dense.len()
    &&& forall|i: int|
        #![trigger new_values[i]]
        0 <= i < dense.len() ==> if grid::cell_at(size, i).within(lo, hi) && grid::cell_at(
            size,
            i,
        ).before(cursor) {
            wrote(Vector3i::from_cell(grid::cell_at(size, i)), i, new_values[i])
        } else {
            new_values[i] == dense[i]
        }
}

proof fn lemma_rewrite_step(
    dense: Seq<u64>,
    values: Seq<u64>,
    size: Cell,
    lo: Cell,
    hi: Cell,
    c: Cell,
    new: u64,
    wrote: spec_fn(Vector3i, int, u64) -> bool,
)
    requires
        dense.len() == grid::volume(size),
        c.in_grid(size),
        c.within(lo, hi),
        partly_rewritten(dense, values, size, lo, hi, c, wrote),
        wrote(Vector3i::from_cell(c), grid::zxy(size, c), new),
    ensures
        partly_rewritten(
            dense,
            values.update(grid::zxy(size, c), new),
            size,
            lo,
            hi,
            Cell { x: c.x, y: c.y + 1, z: c.z },
            wrote,
        ),
{
    grid::lemma_cell_at_zxy(size, c);
    let k = grid::zxy(size, c);
    let after = values.update(k, new);
    let next = Cell { x: c.x, y: c.y + 1, z: c.z };
    assert forall|i: int|
        #![trigger after[i]]
        0 <= i < dense.len() implies if grid::cell_at(size, i).within(lo, hi) && grid::cell_at(
        size,
        i,
    ).before(next) {
        wrote(Vector3i::from_cell(grid::cell_at(size, i)), i, after[i])
    } else {
        after[i] == dense[i]
    } by {
        grid::lemma_zxy_cell_at(size, i);
        if i != k {
            assert(after[i] == values[i]);
            assert(grid::cell_at(size, i) != c);
        }
    }
}

/// What rewriting the box between two corners of channel `c` makes of a
/// buffer: nothing for an empty box; otherwise the channel is dense, each voxel
/// of the box has a value that `wrote` admits, and all others keep theirs.
pub open spec fn area_rewritten(
    before: BufferModel,
    after: BufferModel,
    c: int,
    min: Cell,
    max: Cell,
    wrote: spec_fn(Vector3i, int, u64) -> bool,
) -> bool {
    let (lo, hi) = funcs::fill_extent(before.size, min, max);
    if !lo.lt(hi) {
        after == before
    } else {
        let dense = before.channels[c].made_dense(grid::volume(before.size));
        &&& after == before.with_channel(c, dense.with_values(after.channels[c].values))
        &&& partly_rewritten(
            dense.values,
            after.channels[c].values,
            before.size,
            lo,
            hi,
            Cell { x: lo.x, y: lo.y, z: hi.z },
            wrote,
        )
    }
}

/// Where each admitted value is the one that `f` names, the rewritten channel
/// is known.
pub proof fn lemma_area_rewritten(
    before: BufferModel,
    after: BufferModel,
    c: int,
    min: Cell,
    max: Cell,
    wrote: spec_fn(Vector3i, int, u64) -> bool,
    f: spec_fn(Cell) -> u64,
)
    requires
        before.wf(),
        0 <= c < MAX_CHANNELS,
        area_rewritten(before, after, c, min, max, wrote),
        forall|p: Vector3i, new: u64|
            p@.within(
                funcs::fill_extent(before.size, min, max).0,
                funcs::fill_extent(before.size, min, max).1,
            ) && #[trigger] wrote(p, grid::zxy(before.size, p@), new) ==> new == f(p@),
    ensures
        ({
            let (lo, hi) = funcs::fill_extent(before.size, min, max);
            let dense = before.channels[c].made_dense(grid::volume(before.size));
            lo.lt(hi) ==> after == before.with_channel(
                c,
                dense.with_values(grid::region_write(dense.values, before.size, lo, hi, f)),
            )
        }),
{
    let (lo, hi) = funcs::fill_extent(before.size, min, max);
    if lo.lt(hi) {
        let size = before.size;
        let dense = before.channels[c].made_dense(grid::volume(size));
        assert(before.channels[c].wf(grid::volume(size)));
        grid::lemma_volume_sign(size);
        let values = after.channels[c].values;
        let expected = grid::region_write(dense.values, size, lo, hi, f);
        assert forall|i: int| 0 <= i < values.len() implies values[i] == expected[i] by {
            grid::lemma_zxy_cell_at(size, i);
            let d = grid::cell_at(size, i);
            if d.within(lo, hi) {
                let p = Vector3i::from_cell(d);
                assert(p@ == d);
                assert(wrote(p, grid::zxy(size, p@), values[i]));
            }
        }
        assert(values =~= expected);
    }
}

/// `c` lies in the half of the grid that a mirroring walks through.
spec fn in_first_half(size: Cell, axis: int, c: Cell) -> bool {
    if axis == 0 {
        c.x < size.x / 2
    } else if axis == 1 {
        c.y < size.y / 2
    } else {
        c.z < size.z / 2
    }
}

/// A mirroring has swapped the cells of the first half before `cursor`.
spec fn mirrored_before(
    before: Seq<u64>,
    values: Seq<u64>,
    size: Cell,
    axis: int,
    cursor: Cell,
) -> bool {
    &&& values.len() == before.len()
    &&& forall|i: int|
        #![trigger values[i]]
        0 <= i < before.len() ==> {
            let c = grid::cell_at(size, i);
            let m = buffer_model::mirrored(size, axis, c);
            values[i] == if (in_first_half(size, axis, c) && c.before(cursor)) || (in_first_half(
                size,
                axis,
                m,
            ) && m.before(cursor)) {
                before[grid::zxy(size, m)]
            } else {
                before[i]
            }
        }
}

proof fn lemma_mirror_step(
    before: Seq<u64>,
    values: Seq<u64>,
    size: Cell,
    axis: int,
    c: Cell,
)
    requires
        before.len() == grid::volume(size),
        c.in_grid(size),
        in_first_half(size, axis, c),
        mirrored_before(before, values, size, axis, c),
    ensures
        ({
            let m = buffer_model::mirrored(size, axis, c);
            let i = grid::zxy(size, c);
            let j = grid::zxy(size, m);
            &&& m.in_grid(size)
            &&& 0 <= i < before.len()
            &&& 0 <= j < before.len()
            &&& i != j
            &&& values[i] == before[i]
            &&& values[j] == before[j]
            &&& mirrored_before(
                before,
                values.update(i, before[j]).update(j, before[i]),
                size,
                axis,
                Cell { x: c.x, y: c.y + 1, z: c.z },
            )
        }),
{
    let m = buffer_model::mirrored(size, axis, c);
    let i = grid::zxy(size, c);
    let j = grid::zxy(size, m);
    grid::lemma_cell_at_zxy(size, c);
    grid::lemma_cell_at_zxy(size, m);
    assert(buffer_model::mirrored(size, axis, m) == c);
    assert(!in_first_half(size, axis, m));
    let after = values.update(i, before[j]).update(j, before[i]);
    let next = Cell { x: c.x, y: c.y + 1, z: c.z };
    assert forall|k: int| #![trigger after[k]] 0 <= k < before.len() implies {
        let d = grid::cell_at(size, k);
        let e = buffer_model::mirrored(size, axis, d);
        after[k] == if (in_first_half(size, axis, d) && d.before(next)) || (in_first_half(
            size,
            axis,
            e,
        ) && e.before(next)) {
            before[grid::zxy(size, e)]
        } else {
            before[k]
        }
    } by {
        grid::lemma_zxy_cell_at(size, k);
        let d = grid::cell_at(size, k);
        let e = buffer_model::mirrored(size, axis, d);
        if k != i && k != j {
            assert(d != c);
            assert(d != m);
            assert(e != c);
            assert(after[k] == values[k]);
        }
    }
}

proof fn lemma_mirror_done(before: Seq<u64>, values: Seq<u64>, size: Cell, axis: int, end: Cell)
    requires
        before.len() == grid::volume(size),
        Cell::zero().le(size),
        mirrored_before(before, values, size, axis, end),
        forall|c: Cell|
            c.in_grid(size) && #[trigger] in_first_half(size, axis, c) ==> c.before(end),
    ensures
        values == Seq::new(
            before.len(),
            |i: int|
                before[grid::zxy(
                    size,
                    buffer_model::mirrored(size, axis, grid::cell_at(size, i)),
                )],
        ),
{
    grid::lemma_volume_sign(size);
    let moved = Seq::new(
        before.len(),
        |i: int|
            before[grid::zxy(size, buffer_model::mirrored(size, axis, grid::cell_at(size, i)))],
    );
    assert forall|i: int| 0 <= i < before.len() implies values[i] == moved[i] by {
        grid::lemma_zxy_cell_at(size, i);
        let c = grid::cell_at(size, i);
        let m = buffer_model::mirrored(size, axis, c);
        assert(in_first_half(size, axis, c) || in_first_half(size, axis, m) || m == c);
        assert(m.in_grid(size));
    }
    assert(values =~= moved);
}

proof fn lemma_mirror_start(before: Seq<u64>, size: Cell, axis: int)
    requires
        before.len() == grid::volume(size),
        Cell::zero().le(size),
    ensures
        mirrored_before(before, before, size, axis, Cell::zero()),
{
    grid::lemma_volume_sign(size);
    assert forall|i: int| 0 <= i < before.len() implies !(#[trigger] grid::cell_at(
        size,
        i,
    )).before(Cell::zero()) && !buffer_model::mirrored(size, axis, grid::cell_at(size, i)).before(
        Cell::zero(),
    ) by {
        grid::lemma_zxy_cell_at(size, i);
    }
}

/// Swaps every cell of the first half with its mirror image.
#[verifier::loop_isolation(false)]
fn mirror_values(data: &mut ChannelData, size: Vector3i, axis: usize)
    requires
        Cell::zero().le(size@),
        old(data)@.len() == grid::volume(size@),
    ensures
        final(data).width() == old(data).width(),
        final(data)@ == Seq::new(
            old(data)@.len(),
            |i: int|
                old(data)@[grid::zxy(
                    size@,
                    buffer_model::mirrored(size@, axis as int, grid::cell_at(size@, i)),
                )],
        ),
{
    let ghost before = data@;
    let ghost a = axis as int;
    let len: usize = data.len();
    proof {
        data.lemma_values_fit();
        lemma_mirror_start(before, size@, a);
    }
    let end = if axis == 0 {
        Vector3i::new(size.x / 2, size.y, size.z)
    } else if axis == 1 {
        Vector3i::new(size.x, size.y / 2, size.z)
    } else {
        Vector3i::new(size.x, size.y, size.z / 2)
    };
    let mut z: i32 = 0;
    while z < end.z
        invariant
            0 <= z <= end.z,
            data.width() == old(data).width(),
            mirrored_before(before, data@, size@, a, Cell { x: 0, y: 0, z: z as int }),
        decreases end.z - z,
    {
        let mut x: i32 = 0;
        while x < end.x
            invariant
                0 <= z < end.z,
                0 <= x <= end.x,
                data.width() == old(data).width(),
                mirrored_before(before, data@, size@, a, Cell { x: x as int, y: 0, z: z as int }),
            decreases end.x - x,
        {
            let mut y: i32 = 0;
            while y < end.y
                invariant
                    0 <= z < end.z,
                    0 <= x < end.x,
                    0 <= y <= end.y,
                    data.width() == old(data).width(),
                    mirrored_before(
                        before,
                        data@,
                        size@,
                        a,
                        Cell { x: x as int, y: y as int, z: z as int },
                    ),
                decreases end.y - y,
            {
                let c = Vector3i::new(x, y, z);
                let m = if axis == 0 {
                    Vector3i::new(size.x - 1 - x, y, z)
                } else if axis == 1 {
                    Vector3i::new(x, size.y - 1 - y, z)
                } else {
                    Vector3i::new(x, y, size.z - 1 - z)
                };
                proof {
                    lemma_mirror_step(before, data@, size@, a, c@);
                }
                let i: usize = c.zxy_index(size);
                let j: usize = m.zxy_index(size);
                let u: u64 = data.get_u64(i);
                let v: u64 = data.get_u64(j);
                data.set_u64(i, v);
                data.set_u64(j, u);
                y = y + 1;
            }
            proof {
                let here = Cell { x: x as int, y: y as int, z: z as int };
                let next = Cell { x: x + 1, y: 0, z: z as int };
                lemma_mirror_cursor(before, data@, size@, a, here, next);
            }
            x = x + 1;
        }
        proof {
            let here = Cell { x: x as int, y: 0, z: z as int };
            let next = Cell { x: 0, y: 0, z: z + 1 };
            lemma_mirror_cursor(before, data@, size@, a, here, next);
        }
        z = z + 1;
    }
    proof {
        lemma_mirror_done(before, data@, size@, a, Cell { x: 0, y: 0, z: z as int });
    }
}

/// Two cursors with the same walked cells before them mean the same.
proof fn lemma_mirror_cursor(
    before: Seq<u64>,
    values: Seq<u64>,
    size: Cell,
    axis: int,
    here: Cell,
    next: Cell,
)
    requires
        before.len() == grid::volume(size),
        Cell::zero().le(size),
        mirrored_before(before, values, size, axis, here),
        forall|c: Cell|
            c.in_grid(size) && #[trigger] in_first_half(size, axis, c) ==> c.before(here)
                == c.before(next),
    ensures
        mirrored_before(before, values, size, axis, next),
{
    grid::lemma_volume_sign(size);
    assert forall|i: int| #![trigger values[i]] 0 <= i < before.len() implies {
        let c = grid::cell_at(size, i);
        let m = buffer_model::mirrored(size, axis, c);
        values[i] == if (in_first_half(size, axis, c) && c.before(next)) || (in_first_half(
            size,
            axis,
            m,
        ) && m.before(next)) {
            before[grid::zxy(size, m)]
        } else {
            before[i]
        }
    } by {
        grid::lemma_zxy_cell_at(size, i);
    }
}

/// A turn has moved the cells before `cursor`.
spec fn rotated_before(
    before: Seq<u64>,
    values: Seq<u64>,
    size: Cell,
    axis: int,
    clockwise: bool,
    cursor: Cell,
) -> bool {
    &&& values.len() == before.len()
    &&& forall|i: int|
        #![trigger values[i]]
        0 <= i < before.len() ==> {
            let u = buffer_model::rotated(size, axis, !clockwise, grid::cell_at(size, i));
            u.before(cursor) ==> values[i] == before[grid::zxy(size, u)]
        }
}

proof fn lemma_rotate_step(
    before: Seq<u64>,
    values: Seq<u64>,
    size: Cell,
    axis: int,
    clockwise: bool,
    c: Cell,
)
    requires
        before.len() == grid::volume(size),
        buffer_model::square_around(size, axis),
        c.in_grid(size),
        rotated_before(before, values, size, axis, clockwise, c),
    ensures
        ({
            let d = buffer_model::rotated(size, axis, clockwise, c);
            let j = grid::zxy(size, d);
            &&& d.in_grid(size)
            &&& 0 <= grid::zxy(size, c) < before.len()
            &&& 0 <= j < before.len()
            &&& rotated_before(
                before,
                values.update(j, before[grid::zxy(size, c)]),
                size,
                axis,
                clockwise,
                Cell { x: c.x, y: c.y + 1, z: c.z },
            )
        }),
{
    let d = buffer_model::rotated(size, axis, clockwise, c);
    let j = grid::zxy(size, d);
    grid::lemma_cell_at_zxy(size, c);
    grid::lemma_cell_at_zxy(size, d);
    let after = values.update(j, before[grid::zxy(size, c)]);
    let next = Cell { x: c.x, y: c.y + 1, z: c.z };
    assert forall|i: int| #![trigger after[i]] 0 <= i < before.len() implies {
        let u = buffer_model::rotated(size, axis, !clockwise, grid::cell_at(size, i));
        u.before(next) ==> after[i] == before[grid::zxy(size, u)]
    } by {
        grid::lemma_zxy_cell_at(size, i);
        let e = grid::cell_at(size, i);
        let u = buffer_model::rotated(size, axis, !clockwise, e);
        assert(buffer_model::rotated(size, axis, clockwise, u) == e);
        if i != j {
            assert(u != c);
            assert(after[i] == values[i]);
        }
    }
}

/// Moves every cell to where a quarter turn takes it.
#[verifier::loop_isolation(false)]
fn rotate_values(data: &mut ChannelData, size: Vector3i, axis: usize, clockwise: bool)
    requires
        Cell::zero().le(size@),
        old(data)@.len() == grid::volume(size@),
        grid::volume(size@) > 0 ==> buffer_model::square_around(size@, axis as int),
    ensures
        final(data).width() == old(data).width(),
        final(data)@ == Seq::new(
            old(data)@.len(),
            |i: int|
                old(data)@[grid::zxy(
                    size@,
                    buffer_model::rotated(
                        size@,
                        axis as int,
                        !clockwise,
                        grid::cell_at(size@, i),
                    ),
                )],
        ),
{
    let ghost before = data@;
    let ghost a = axis as int;
    let len: usize = data.len();
    proof {
        data.lemma_values_fit();
        grid::lemma_volume_sign(size@);
    }
    let mut old_values: Vec<u64> = Vec::new();
    let mut k: usize = 0;
    while k < len
        invariant
            k <= len,
            data@ == before,
            data.width() == old(data).width(),
            old_values@ == before.take(k as int),
        decreases len - k,
    {
        old_values.push(data.get_u64(k));
        k = k + 1;
        assert(before.take(k as int) =~= before.take(k - 1).push(before[k - 1]));
    }
    assert(old_values@ =~= before);
    proof {
        assert forall|i: int| 0 <= i < before.len() implies buffer_model::rotated(
            size@,
            a,
            !clockwise,
            #[trigger] grid::cell_at(size@, i),
        ).in_grid(size@) by {
            grid::lemma_zxy_cell_at(size@, i);
        }
    }
    let mut z: i32 = 0;
    while z < size.z
        invariant
            0 <= z <= size.z,
            data.width() == old(data).width(),
            rotated_before(before, data@, size@, a, clockwise, Cell { x: 0, y: 0, z: z as int }),
        decreases size.z - z,
    {
        let mut x: i32 = 0;
        while x < size.x
            invariant
                0 <= z < size.z,
                0 <= x <= size.x,
                data.width() == old(data).width(),
                rotated_before(
                    before,
                    data@,
                    size@,
                    a,
                    clockwise,
                    Cell { x: x as int, y: 0, z: z as int },
                ),
            decreases size.x - x,
        {
            let mut y: i32 = 0;
            while y < size.y
                invariant
                    0 <= z < size.z,
                    0 <= x < size.x,
                    0 <= y <= size.y,
                    data.width() == old(data).width(),
                    rotated_before(
                        before,
                        data@,
                        size@,
                        a,
                        clockwise,
                        Cell { x: x as int, y: y as int, z: z as int },
                    ),
                decreases size.y - y,
            {
                let c = Vector3i::new(x, y, z);
                let d = if axis == 0 {
                    if clockwise {
                        Vector3i::new(x, size.z - 1 - z, y)
                    } else {
                        Vector3i::new(x, z, size.y - 1 - y)
                    }
                } else if axis == 1 {
                    if clockwise {
                        Vector3i::new(size.z - 1 - z, y, x)
                    } else {
                        Vector3i::new(z, y, size.x - 1 - x)
                    }
                } else {
                    if clockwise {
                        Vector3i::new(size.y - 1 - y, x, z)
                    } else {
                        Vector3i::new(y, size.x - 1 - x, z)
                    }
                };
                proof {
                    grid::lemma_zxy_bounds(size@, c@);
                    lemma_rotate_step(before, data@, size@, a, clockwise, c@);
                }
                let old_i: usize = c.zxy_index(size);
                let new_i: usize = d.zxy_index(size);
                data.set_u64(new_i, old_values[old_i]);
                y = y + 1;
            }
            x = x + 1;
        }
        z = z + 1;
    }
    proof {
        let moved = Seq::new(
            before.len(),
            |i: int|
                before[grid::zxy(
                    size@,
                    buffer_model::rotated(size@, a, !clockwise, grid::cell_at(size@, i)),
                )],
        );
        assert forall|i: int| 0 <= i < before.len() implies data@[i] == moved[i] by {
            grid::lemma_zxy_cell_at(size@, i);
        }
        assert(data@ =~= moved);
    }
}

/// The number itself, or zero if it is negative.
fn at_least_zero(v: i32) -> (r: i32)
    ensures
        r == grid::max_int(v as int, 0),
{
    if v >= 0 {
        v
    } else {
        0
    }
}

/// Where the source cell `offset` lands after a move by `dst_min - src_min`,
/// clamped to `[0, size]`.
fn paste_bound(dst_min: i32, src_min: i32, offset: i32, size: i32) -> (r: i32)
    requires
        0 <= size,
        0 <= offset,
    ensures
        r == grid::clamp_int(dst_min - src_min + offset, 0, size as int),
{
    let v: i64 = dst_min as i64 - src_min as i64 + offset as i64;
    if v < 0 {
        0
    } else if v > size as i64 {
        size
    } else {
        v as i32
    }
}

/// Writing the clamped box is writing the box.
proof fn lemma_paste_region(
    before: BufferModel,
    src: BufferModel,
    src_min: Cell,
    dst_min: Cell,
    mask: u8,
    i: int,
    lo: Cell,
    hi: Cell,
    values: Seq<u64>,
)
    requires
        before.wf(),
        src.wf(),
        0 <= i < MAX_CHANNELS,
        buffer_model::in_mask(mask, i),
        lo == dst_min.minus(src_min).plus(src_min.max(Cell::zero())).clamp(
            Cell::zero(),
            before.size,
        ),
        hi == dst_min.minus(src_min).plus(src.size).clamp(Cell::zero(), before.size),
        ({
            let dense = before.channels[i].made_dense(grid::volume(before.size));
            let f = |d: Cell|
                dense.depth.truncated(src.value(i, d.minus(dst_min).plus(src_min)));
            if lo.lt(hi) {
                values == grid::region_write(dense.values, before.size, lo, hi, f)
            } else {
                values == dense.values
            }
        }),
    ensures
        values == before.voxels_pasted(src, src_min, dst_min, mask).channels[i].values,
{
    let dense = before.channels[i].made_dense(grid::volume(before.size));
    let expected = before.voxels_pasted(src, src_min, dst_min, mask).channels[i].values;
    assert(before.channels[i].wf(grid::volume(before.size)));
    grid::lemma_volume_sign(before.size);
    assert forall|k: int| 0 <= k < values.len() implies values[k] == expected[k] by {
        grid::lemma_zxy_cell_at(before.size, k);
    }
    assert(values =~= expected);
}

fn point_in_half_open_box(position: Vector3i, lo: Vector3i, hi: Vector3i) -> (b: bool)
    ensures
        b == position@.within(lo@, hi@),
{
    position.x >= lo.x && position.y >= lo.y && position.z >= lo.z && position.x < hi.x
        && position.y < hi.y && position.z < hi.z
}

fn metadata_pos_after(position: Vector3i, start: Vector3i) -> (b: bool)
    ensures
        b == start@.before(position@),
{
    start.z < position.z || start.z == position.z && (start.x < position.x || start.x == position.x
        && start.y < position.y)
}

/// `visited` holds every voxel that has metadata once, with its metadata.
pub open spec fn visits(b: BufferModel, visited: Seq<(Vector3i, MetadataValue)>) -> bool {
    &&& forall|j: int, k: int|
        0 <= j < k < visited.len() ==> (#[trigger] visited[j]).0 != (#[trigger] visited[k]).0
    &&& forall|k: int|
        0 <= k < visited.len() ==> b.voxel_metadata.contains_key((#[trigger] visited[k]).0)
            && visited[k].1@ == b.voxel_metadata[visited[k].0]
    &&& forall|p: Vector3i| #[trigger]
        b.voxel_metadata.contains_key(p) ==> exists|k: int|
            0 <= k < visited.len() && (#[trigger] visited[k]).0 == p
}

/// `visited` holds every voxel of `[lo, hi)` that has metadata once, with its
/// metadata.
pub open spec fn visits_area(
    b: BufferModel,
    visited: Seq<(Vector3i, MetadataValue)>,
    lo: Cell,
    hi: Cell,
) -> bool {
    &&& forall|j: int, k: int|
        0 <= j < k < visited.len() ==> (#[trigger] visited[j]).0 != (#[trigger] visited[k]).0
    &&& forall|k: int|
        0 <= k < visited.len() ==> b.voxel_metadata.contains_key((#[trigger] visited[k]).0)
            && visited[k].1@ == b.voxel_metadata[visited[k].0] && visited[k].0@.within(lo, hi)
    &&& forall|p: Vector3i| #[trigger]
        b.voxel_metadata.contains_key(p) && p@.within(lo, hi) ==> exists|k: int|
            0 <= k < visited.len() && (#[trigger] visited[k]).0 == p
}

proof fn lemma_visits(
    b: &VoxelBuffer,
    positions: Seq<Vector3i>,
    visited: Seq<(Vector3i, MetadataValue)>,
)
    requires
        b.wf(),
        positions.no_duplicates(),
        positions.to_set() == b.voxel_metadata@.dom(),
        visited.len() == positions.len(),
        forall|k: int|
            0 <= k < positions.len() ==> (#[trigger] visited[k]).0 == positions[k] && visited[k].1
                == b.voxel_metadata@[positions[k]],
    ensures
        visits(b@, visited),
{
    assert forall|k: int| 0 <= k < visited.len() implies b@.voxel_metadata.contains_key(
        (#[trigger] visited[k]).0,
    ) && visited[k].1@ == b@.voxel_metadata[visited[k].0] by {
        assert(positions.to_set().contains(positions[k]));
    }
    assert forall|p: Vector3i| #[trigger] b@.voxel_metadata.contains_key(p) implies exists|k: int|
        0 <= k < visited.len() && (#[trigger] visited[k]).0 == p by {
        assert(b.voxel_metadata@.contains_key(p));
        assert(positions.to_set().contains(p));
        let k = choose|k: int| 0 <= k < positions.len() && positions[k] == p;
        assert(visited[k].0 == p);
    }
}

/// `p` has metadata, lies in the box and comes after `start`.
pub open spec fn is_next_candidate(
    b: BufferModel,
    lo: Cell,
    hi: Cell,
    start: Vector3i,
    p: Vector3i,
) -> bool {
    b.voxel_metadata.contains_key(p) && p@.within(lo, hi) && start@.before(p@)
}

/// `metadata_pasted` carried out for the source positions in `done` only.
spec fn metadata_pasted_from(
    before: BufferModel,
    src: BufferModel,
    src_min: Cell,
    dst_min: Cell,
    done: Set<Vector3i>,
) -> Map<Vector3i, metadata::MetadataModel> {
    Map::new(
        |p: Vector3i|
            before.voxel_metadata.contains_key(p) || (buffer_model::metadata_moves(
                before,
                src,
                src_min,
                dst_min,
                p,
            ) && done.contains(buffer_model::metadata_source(src_min, dst_min, p))),
        |p: Vector3i|
            if buffer_model::metadata_moves(before, src, src_min, dst_min, p) && done.contains(
                buffer_model::metadata_source(src_min, dst_min, p),
            ) {
                src.voxel_metadata[buffer_model::metadata_source(src_min, dst_min, p)]
            } else {
                before.voxel_metadata[p]
            },
    )
}

proof fn lemma_metadata_step(
    before: BufferModel,
    src: BufferModel,
    src_min: Cell,
    dst_min: Cell,
    done: Set<Vector3i>,
    p: Vector3i,
    q: Vector3i,
)
    requires
        src.voxel_metadata.contains_key(q),
        q@.within(src_min, src.size),
        p@ == dst_min.plus(q@.minus(src_min)),
        p@.in_grid(before.size),
    ensures
        metadata_pasted_from(before, src, src_min, dst_min, done.insert(q))
            == metadata_pasted_from(before, src, src_min, dst_min, done).insert(
            p,
            src.voxel_metadata[q],
        ),
{
    assert(buffer_model::metadata_source(src_min, dst_min, p) == q);
    assert forall|r: Vector3i|
        #![trigger buffer_model::metadata_source(src_min, dst_min, r)]
        buffer_model::metadata_moves(before, src, src_min, dst_min, r)
            && buffer_model::metadata_source(src_min, dst_min, r) == q implies r == p by {
        assert(r@.minus(dst_min).plus(src_min) == q@);
    }
    assert(metadata_pasted_from(before, src, src_min, dst_min, done.insert(q))
        =~= metadata_pasted_from(before, src, src_min, dst_min, done).insert(
        p,
        src.voxel_metadata[q],
    ));
}

proof fn lemma_metadata_skip(
    before: BufferModel,
    src: BufferModel,
    src_min: Cell,
    dst_min: Cell,
    done: Set<Vector3i>,
    q: Vector3i,
)
    requires
        !(q@.within(src_min, src.size) && dst_min.plus(q@.minus(src_min)).in_grid(before.size)),
    ensures
        metadata_pasted_from(before, src, src_min, dst_min, done.insert(q))
            == metadata_pasted_from(before, src, src_min, dst_min, done),
{
    assert forall|r: Vector3i|
        #![trigger buffer_model::metadata_source(src_min, dst_min, r)]
        buffer_model::metadata_moves(
            before,
            src,
            src_min,
            dst_min,
            r,
        ) implies buffer_model::metadata_source(src_min, dst_min, r) != q by {
        if buffer_model::metadata_source(src_min, dst_min, r) == q {
            assert(r@.minus(dst_min).plus(src_min) == q@);
            assert(dst_min.plus(q@.minus(src_min)) == r@);
        }
    }
    assert(metadata_pasted_from(before, src, src_min, dst_min, done.insert(q))
        =~= metadata_pasted_from(before, src, src_min, dst_min, done));
}

} // verus!
