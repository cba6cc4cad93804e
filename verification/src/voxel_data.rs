//! Voxel data at several levels of detail.

use crate::boxes;
use crate::boxes::Box3i;
use crate::buffer_model::BufferModel;
use crate::channel::MAX_CHANNELS;
use crate::collections;
use crate::depth::ChannelDepth;
use crate::generator;
use crate::generator::{SharedVoxelGenerator, SharedVoxelStream, VoxelGenerator};
use crate::grid::Cell;
use crate::map_areas;
use crate::map_paste;
use crate::math::Vector3i;
use crate::voxel_buffer::VoxelBuffer;
use crate::voxel_data_block::{BlockModel, VoxelDataBlock};
use crate::voxel_data_map;
use crate::voxel_data_map::{MapModel, VoxelDataMap, BLOCK_SIZE};
use crate::voxel_format;
use crate::voxel_format::VoxelFormat;
use vstd::prelude::*;

verus! {

/// Upper bound of the number of levels of detail; the bound itself is not
/// reached.
pub const MAX_LOD: usize = 24;

/// A block that has to be saved.
#[derive(Debug)]
pub struct BlockToSave {
    pub voxels: Option<VoxelBuffer>,
    pub position: Vector3i,
    pub lod_index: u8,
    pub block_revision: u64,
}

/// What a block to be saved holds.
#[verifier::ext_equal]
pub struct SaveModel {
    pub voxels: Option<BufferModel>,
    pub position: Vector3i,
    pub lod_index: u8,
    pub block_revision: u64,
}

impl View for BlockToSave {
    type V = SaveModel;

    open spec fn view(&self) -> SaveModel {
        SaveModel {
            voxels: match self.voxels {
                Some(v) => Some(v@),
                None => None,
            },
            position: self.position,
            lod_index: self.lod_index,
            block_revision: self.block_revision,
        }
    }
}

impl BlockToSave {
    pub open spec fn wf(&self) -> bool {
        self.voxels matches Some(v) ==> v.wf()
    }
}

/// A block and the level of detail it belongs to.
#[derive(Clone, Copy, Debug, PartialEq, Eq, Structural)]
pub struct BlockLocation {
    pub position: Vector3i,
    pub lod_index: u8,
}

/// Why the number of levels of detail could not be changed.
#[derive(Clone, Copy, Debug, PartialEq, Eq, Structural)]
pub enum VoxelDataLodResizeError {
    InvalidLodCount { requested: usize },
    NonEmptyTruncatedLod { lod_index: usize },
    CapacityReservationFailed,
}

/// What voxel data holds.
#[verifier::ext_equal]
pub struct DataModel {
    pub lods: Seq<MapModel>,
    pub format: Seq<ChannelDepth>,
    pub bounds: Box3i,
    pub full_load_completed: bool,
    pub streaming_enabled: bool,
    pub generator: Option<SharedVoxelGenerator>,
    pub stream: Option<SharedVoxelStream>,
}

impl DataModel {
    /// There is a level of detail, not too many, and each map knows its own
    /// and has the format of the whole.
    pub open spec fn wf(self) -> bool {
        &&& 1 <= self.lods.len() < MAX_LOD
        &&& self.format.len() == MAX_CHANNELS
        &&& forall|l: int|
            0 <= l < self.lods.len() ==> (#[trigger] self.lods[l]).wf() && self.lods[l].lod_index
                == l && self.lods[l].format == self.format
    }

    pub open spec fn with_lod(self, l: int, m: MapModel) -> DataModel {
        DataModel { lods: self.lods.update(l, m), ..self }
    }

    /// There is a block at `p` at level `l`.
    pub open spec fn has_block(self, p: Vector3i, l: int) -> bool {
        0 <= l < self.lods.len() && self.lods[l].has(p)
    }

    /// Empty maps for every level.
    pub open spec fn emptied(self, format: Seq<ChannelDepth>) -> DataModel {
        DataModel {
            lods: Seq::new(self.lods.len(), |l: int| MapModel::empty(l as u8, format)),
            format,
            ..self
        }
    }

    /// Data as a constructor makes it.
    pub open spec fn fresh() -> DataModel {
        DataModel {
            lods: seq![MapModel::empty(0, voxel_format::default_depths())],
            format: voxel_format::default_depths(),
            bounds: Box3i {
                position: Vector3i { x: 0, y: 0, z: 0 },
                size: Vector3i { x: 0, y: 0, z: 0 },
            },
            full_load_completed: false,
            streaming_enabled: true,
            generator: None,
            stream: None,
        }
    }

    /// Data with `n` levels of detail: the first ones are kept, new ones are
    /// empty.
    pub open spec fn resized(self, n: int) -> DataModel {
        DataModel {
            lods: Seq::new(
                n as nat,
                |l: int|
                    if l < self.lods.len() {
                        self.lods[l]
                    } else {
                        MapModel::empty(l as u8, self.format)
                    },
            ),
            ..self
        }
    }

    /// Level `l` holds blocks.
    pub open spec fn occupied(self, l: int) -> bool {
        self.lods[l].blocks != Map::<Vector3i, BlockModel>::empty()
    }
}

/// Voxel data: a sparse map of blocks for each level of detail, the settings
/// that apply to all of them, and what supplies missing voxels.
pub struct VoxelData {
    lods: Vec<VoxelDataMap>,
    format: VoxelFormat,
    bounds_in_voxels: Box3i,
    full_load_completed: bool,
    streaming_enabled: bool,
    generator: Option<SharedVoxelGenerator>,
    stream: Option<SharedVoxelStream>,
}

impl View for VoxelData {
    type V = DataModel;

    closed spec fn view(&self) -> DataModel {
        DataModel {
            lods: Seq::new(self.lods@.len(), |l: int| self.lods@[l]@),
            format: self.format@,
            bounds: self.bounds_in_voxels,
            full_load_completed: self.full_load_completed,
            streaming_enabled: self.streaming_enabled,
            generator: self.generator,
            stream: self.stream,
        }
    }
}

fn new_lod(lod_index: u8, format: VoxelFormat) -> (m: VoxelDataMap)
    ensures
        m.wf(),
        m@ == MapModel::empty(lod_index, format@),
{
    let mut m = VoxelDataMap::new(lod_index);
    m.set_format(format);
    m
}

impl VoxelData {
    pub closed spec fn wf(&self) -> bool {
        &&& 1 <= self.lods@.len() < MAX_LOD
        &&& forall|l: int|
            0 <= l < self.lods@.len() ==> (#[trigger] self.lods@[l]).wf()
                && self.lods@[l]@.lod_index == l && self.lods@[l]@.format == self.format@
    }

    pub proof fn lemma_wf(&self)
        requires
            self.wf(),
        ensures
            self@.wf(),
    {
        assert forall|l: int| 0 <= l < self@.lods.len() implies (#[trigger] self@.lods[l]).wf()
            && self@.lods[l].lod_index == l && self@.lods[l].format == self@.format by {
            assert(self.lods@[l].wf());
            self.lods@[l].lemma_wf();
        }
    }

    /// Replacing one map by a well-formed one of the same level and format
    /// keeps the data well-formed.
    proof fn lemma_lod_replaced(&self, before: &VoxelData, l: int)
        requires
            before.wf(),
            0 <= l < before.lods@.len(),
            self.lods@ == before.lods@.update(l, self.lods@[l]),
            self.lods@[l].wf(),
            self.lods@[l]@.lod_index == before.lods@[l]@.lod_index,
            self.lods@[l]@.format == before.lods@[l]@.format,
            self.format == before.format,
            self.bounds_in_voxels == before.bounds_in_voxels,
            self.full_load_completed == before.full_load_completed,
            self.streaming_enabled == before.streaming_enabled,
            self.generator == before.generator,
            self.stream == before.stream,
        ensures
            self.wf(),
            self@ == before@.with_lod(l, self.lods@[l]@),
    {
        assert forall|k: int| 0 <= k < self.lods@.len() implies (#[trigger] self.lods@[k]).wf()
            && self.lods@[k]@.lod_index == k && self.lods@[k]@.format == self.format@ by {
            assert(before.lods@[k].wf());
        }
        assert(self@.lods =~= before@.with_lod(l, self.lods@[l]@).lods);
    }

    pub fn new() -> (d: VoxelData)
        ensures
            d.wf(),
            d@ == DataModel::fresh(),
    {
        let format = VoxelFormat::new();
        let mut lods: Vec<VoxelDataMap> = Vec::new();
        lods.push(new_lod(0, format));
        let d = VoxelData {
            lods,
            format,
            bounds_in_voxels: Box3i::default(),
            full_load_completed: false,
            streaming_enabled: true,
            generator: None,
            stream: None,
        };
        assert(d@.lods =~= DataModel::fresh().lods);
        d
    }

    pub fn block_size(&self) -> (n: u32)
        ensures
            n == BLOCK_SIZE,
    {
        VoxelDataMap::BLOCK_SIZE
    }

    pub fn block_size_po2(&self) -> (n: u8)
        ensures
            n == 4,
    {
        VoxelDataMap::BLOCK_SIZE_PO2
    }

    /// The block that a voxel lies in.
    pub fn voxel_to_block(&self, pos: Vector3i) -> (b: Vector3i)
        ensures
            b@ == pos@.over(BLOCK_SIZE as int),
    {
        VoxelDataMap::voxel_to_block(pos)
    }

    /// The first voxel of a block.
    pub fn block_to_voxel(&self, pos: Vector3i) -> (v: Vector3i)
        requires
            pos@.times(BLOCK_SIZE as int).fits(),
        ensures
            v@ == pos@.times(BLOCK_SIZE as int),
    {
        pos.times(BLOCK_SIZE)
    }

    /// Number of levels of detail.
    pub fn lod_count(&self) -> (n: usize)
        ensures
            n == self@.lods.len(),
    {
        self.lods.len()
    }

    /// Changes the number of levels of detail.
    pub fn set_lod_count(&mut self, lod_count: usize) -> (r: Result<(), VoxelDataLodResizeError>)
        requires
            old(self).wf(),
        ensures
            final(self).wf(),
            exists|reserved: bool| #[trigger]
                resize_outcome(old(self)@, final(self)@, lod_count, reserved, r),
    {
        self.try_resize_lods_preserving(lod_count)
    }

    /// Changes the number of levels of detail. Levels that hold blocks are not
    /// dropped, and those that stay keep their blocks.
    pub fn try_resize_lods_preserving(&mut self, lod_count: usize) -> (r: Result<
        (),
        VoxelDataLodResizeError,
    >)
        requires
            old(self).wf(),
        ensures
            final(self).wf(),
            exists|reserved: bool| #[trigger]
                resize_outcome(old(self)@, final(self)@, lod_count, reserved, r),
    {
        let ghost before = self@;
        let current: usize = self.lods.len();
        let reserved = lod_count >= MAX_LOD || lod_count <= current || self.lods.try_reserve(
            lod_count - current,
        ).is_ok();
        assert(self@.lods =~= before.lods);
        let r = self.resize_lods_reserved(lod_count, reserved);
        assert(resize_outcome(before, self@, lod_count, reserved, r));
        r
    }

    /// `try_resize_lods_preserving`, where `reserved` says whether there is room
    /// for the levels that are added.
    pub fn resize_lods_reserved(&mut self, lod_count: usize, reserved: bool) -> (r: Result<
        (),
        VoxelDataLodResizeError,
    >)
        requires
            old(self).wf(),
        ensures
            final(self).wf(),
            resize_outcome(old(self)@, final(self)@, lod_count, reserved, r),
    {
        if lod_count < 1 || lod_count >= MAX_LOD {
            return Err(VoxelDataLodResizeError::InvalidLodCount { requested: lod_count });
        }
        let current: usize = self.lods.len();
        if lod_count == current {
            assert(self@.lods =~= self@.resized(lod_count as int).lods);
            return Ok(());
        }
        if lod_count < current {
            let mut l: usize = lod_count;
            while l < current
                invariant
                    lod_count <= l <= current,
                    current == self.lods@.len(),
                    1 <= lod_count,
                    self.wf(),
                    *self == *old(self),
                    forall|k: int| lod_count <= k < l ==> !#[trigger] self@.occupied(k),
                decreases current - l,
            {
                proof {
                    assert(self.lods@[l as int].wf());
                    assert(self@.lods[l as int] == self.lods@[l as int]@);
                }
                if self.lods[l].block_count() != 0 {
                    assert(self@.occupied(l as int));
                    return Err(VoxelDataLodResizeError::NonEmptyTruncatedLod { lod_index: l });
                }
                l = l + 1;
            }
            self.lods.truncate(lod_count);
            proof {
                assert(self@.lods =~= old(self)@.resized(lod_count as int).lods);
                assert forall|k: int| 0 <= k < self.lods@.len() implies (
                #[trigger] self.lods@[k]).wf() && self.lods@[k]@.lod_index == k
                    && self.lods@[k]@.format == self.format@ by {
                    assert(old(self).lods@[k].wf());
                    assert(self.lods@[k] == old(self).lods@[k]);
                }
            }
            return Ok(());
        }
        if !reserved {
            return Err(VoxelDataLodResizeError::CapacityReservationFailed);
        }
        let mut l: usize = current;
        while l < lod_count
            invariant
                current <= l <= lod_count,
                lod_count < MAX_LOD,
                1 <= current,
                current == old(self).lods@.len(),
                old(self).wf(),
                self.lods@.len() == l,
                self.format == old(self).format,
                self.bounds_in_voxels == old(self).bounds_in_voxels,
                self.full_load_completed == old(self).full_load_completed,
                self.streaming_enabled == old(self).streaming_enabled,
                self.generator == old(self).generator,
                self.stream == old(self).stream,
                forall|k: int|
                    0 <= k < current ==> #[trigger] self.lods@[k] == old(self).lods@[k],
                forall|k: int|
                    current <= k < l ==> (#[trigger] self.lods@[k]).wf() && self.lods@[k]@
                        == MapModel::empty(k as u8, self.format@),
            decreases lod_count - l,
        {
            self.lods.push(new_lod(l as u8, self.format));
            l = l + 1;
        }
        proof {
            assert forall|k: int| 0 <= k < self.lods@.len() implies (#[trigger] self.lods@[k]).wf()
                && self.lods@[k]@.lod_index == k && self.lods@[k]@.format == self.format@ by {
                if k < current {
                    assert(old(self).lods@[k].wf());
                }
            }
            assert(self@.lods =~= old(self)@.resized(lod_count as int).lods);
        }
        Ok(())
    }

    /// Drops all blocks. Settings stay.
    pub fn reset_maps(&mut self)
        requires
            old(self).wf(),
        ensures
            final(self).wf(),
            final(self)@ == old(self)@.emptied(old(self)@.format),
    {
        let n: usize = self.lods.len();
        let mut l: usize = 0;
        while l < n
            invariant
                l <= n,
                1 <= n < MAX_LOD,
                n == self.lods@.len(),
                n == old(self).lods@.len(),
                old(self).wf(),
                self.format == old(self).format,
                self.bounds_in_voxels == old(self).bounds_in_voxels,
                self.full_load_completed == old(self).full_load_completed,
                self.streaming_enabled == old(self).streaming_enabled,
                self.generator == old(self).generator,
                self.stream == old(self).stream,
                forall|k: int|
                    0 <= k < l ==> (#[trigger] self.lods@[k]).wf() && self.lods@[k]@
                        == MapModel::empty(k as u8, self.format@),
            decreases n - l,
        {
            let format = self.format;
            let map = &mut self.lods[l];
            map.create(l as u8);
            map.set_format(format);
            l = l + 1;
        }
        assert(self@.lods =~= old(self)@.emptied(old(self)@.format).lods);
    }

    pub fn bounds(&self) -> (b: Box3i)
        ensures
            b == self@.bounds,
    {
        self.bounds_in_voxels
    }

    pub fn set_bounds(&mut self, bounds: Box3i)
        requires
            old(self).wf(),
        ensures
            final(self).wf(),
            final(self)@ == (DataModel { bounds, ..old(self)@ }),
    {
        self.bounds_in_voxels = bounds;
        assert(self@.lods =~= old(self)@.lods);
    }

    pub fn format(&self) -> (f: VoxelFormat)
        ensures
            f@ == self@.format,
    {
        self.format
    }

    /// Sets the format. A change drops all blocks.
    pub fn set_format(&mut self, format: VoxelFormat)
        requires
            old(self).wf(),
        ensures
            final(self).wf(),
            final(self)@ == if format@ == old(self)@.format {
                old(self)@
            } else {
                old(self)@.emptied(format@)
            },
    {
        if self.format.same_as(&format) {
            return;
        }
        let n: usize = self.lods.len();
        let mut l: usize = 0;
        while l < n
            invariant
                l <= n,
                1 <= n < MAX_LOD,
                n == self.lods@.len(),
                n == old(self).lods@.len(),
                self.format == old(self).format,
                self.bounds_in_voxels == old(self).bounds_in_voxels,
                self.full_load_completed == old(self).full_load_completed,
                self.streaming_enabled == old(self).streaming_enabled,
                self.generator == old(self).generator,
                self.stream == old(self).stream,
                forall|k: int|
                    0 <= k < l ==> (#[trigger] self.lods@[k]).wf() && self.lods@[k]@
                        == MapModel::empty(k as u8, format@),
            decreases n - l,
        {
            let map = &mut self.lods[l];
            map.create(l as u8);
            map.set_format(format);
            l = l + 1;
        }
        self.format = format;
        assert(self@.lods =~= old(self)@.emptied(format@).lods);
    }

    pub fn is_streaming_enabled(&self) -> (b: bool)
        ensures
            b == self@.streaming_enabled,
    {
        self.streaming_enabled
    }

    pub fn set_streaming_enabled(&mut self, enabled: bool)
        requires
            old(self).wf(),
        ensures
            final(self).wf(),
            final(self)@ == (DataModel { streaming_enabled: enabled, ..old(self)@ }),
    {
        self.streaming_enabled = enabled;
        assert(self@.lods =~= old(self)@.lods);
    }

    pub fn is_full_load_completed(&self) -> (b: bool)
        ensures
            b == self@.full_load_completed,
    {
        self.full_load_completed
    }

    pub fn set_full_load_completed(&mut self, complete: bool)
        requires
            old(self).wf(),
        ensures
            final(self).wf(),
            final(self)@ == (DataModel { full_load_completed: complete, ..old(self)@ }),
    {
        self.full_load_completed = complete;
        assert(self@.lods =~= old(self)@.lods);
    }

    /// The shared generator, if there is one.
    pub fn generator(&self) -> (g: Option<SharedVoxelGenerator>)
        ensures
            g == self@.generator,
    {
        generator::share_generator(&self.generator)
    }

    pub fn set_generator(&mut self, generator: Option<SharedVoxelGenerator>)
        requires
            old(self).wf(),
        ensures
            final(self).wf(),
            final(self)@ == (DataModel { generator, ..old(self)@ }),
    {
        self.generator = generator;
        assert(self@.lods =~= old(self)@.lods);
    }

    /// What `f` makes of the generator, if there is one.
    pub fn with_generator<R, F: FnOnce(&dyn VoxelGenerator) -> R>(&self, f: F) -> (r: Option<R>)
        requires
            self@.generator matches Some(g) ==> call_requires(f, (&*g,)),
        ensures
            r is Some <==> self@.generator is Some,
            r matches Some(v) ==> call_ensures(f, (&*self@.generator->0,), v),
    {
        match &self.generator {
            Some(g) => Some(f(&**g)),
            None => None,
        }
    }

    /// The shared stream, if there is one.
    pub fn stream(&self) -> (s: Option<SharedVoxelStream>)
        ensures
            s == self@.stream,
    {
        generator::share_stream(&self.stream)
    }

    pub fn set_stream(&mut self, stream: Option<SharedVoxelStream>)
        requires
            old(self).wf(),
        ensures
            final(self).wf(),
            final(self)@ == (DataModel { stream, ..old(self)@ }),
    {
        self.stream = stream;
        assert(self@.lods =~= old(self)@.lods);
    }

    pub fn has_generator(&self) -> (b: bool)
        ensures
            b == self@.generator is Some,
    {
        self.generator.is_some()
    }

    pub fn has_stream(&self) -> (b: bool)
        ensures
            b == self@.stream is Some,
    {
        self.stream.is_some()
    }
}

impl Default for VoxelData {
    fn default() -> (d: VoxelData)
        ensures
            d.wf(),
            d@ == DataModel::fresh(),
    {
        VoxelData::new()
    }
}

/// What a change of the number of levels does: it is refused if the number is
/// out of range or a level to be dropped holds blocks, and where levels are
/// added it fails if there is no room for them; `reserved` says whether there is.
pub open spec fn resize_outcome(
    before: DataModel,
    after: DataModel,
    n: usize,
    reserved: bool,
    r: Result<(), VoxelDataLodResizeError>,
) -> bool {
    if n < 1 || n >= MAX_LOD {
        after == before && r == Err::<(), _>(
            VoxelDataLodResizeError::InvalidLodCount { requested: n },
        )
    } else if n <= before.lods.len() {
        match r {
            Ok(_) => after == before.resized(n as int) && forall|k: int|
                n <= k < before.lods.len() ==> !#[trigger] before.occupied(k),
            Err(e) => after == before && (e matches VoxelDataLodResizeError::NonEmptyTruncatedLod {
                lod_index: l,
            } && n <= l < before.lods.len() && before.occupied(l as int) && forall|k: int|
                n <= k < l ==> !#[trigger] before.occupied(k)),
        }
    } else if reserved {
        r is Ok && after == before.resized(n as int)
    } else {
        r == Err::<(), _>(VoxelDataLodResizeError::CapacityReservationFailed) && after == before
    }
}

impl DataModel {
    /// The value of voxel `vp` in the finest level, from `l` up, that holds
    /// voxels for it. `vp` counts voxels of level `l`.
    pub open spec fn probed(self, l: int, vp: Vector3i, c: int) -> Option<u64>
        decreases self.lods.len() - l,
    {
        if l >= self.lods.len() || l < 0 {
            None
        } else if self.lods[l].has_voxels(voxel_data_map::block_of(vp)) {
            Some(
                self.lods[l].blocks[voxel_data_map::block_of(vp)].voxels->0.value(
                    c,
                    voxel_data_map::local_of(vp),
                ),
            )
        } else {
            self.probed(l + 1, Vector3i::from_cell(vp@.over(2)), c)
        }
    }

    /// The value of voxel `pos` that memory holds. Coarser levels count only
    /// while data is streamed.
    pub open spec fn resident(self, pos: Vector3i, c: int) -> Option<u64> {
        if self.streaming_enabled {
            self.probed(0, pos, c)
        } else if self.lods[0].has_voxels(voxel_data_map::block_of(pos)) {
            Some(
                self.lods[0].blocks[voxel_data_map::block_of(pos)].voxels->0.value(
                    c,
                    voxel_data_map::local_of(pos),
                ),
            )
        } else {
            None
        }
    }

    /// `r` is what reading voxel `pos` gives: the default outside the bounds
    /// and before everything is loaded, then what memory holds, then what the
    /// generator makes, then the default.
    pub open spec fn reads(self, pos: Vector3i, channel_index: usize, defval: u64, r: u64) -> bool {
        if !self.bounds.has(pos@) || (!self.streaming_enabled && !self.full_load_completed) {
            r == defval
        } else {
            match self.resident(pos, channel_index as int) {
                Some(v) => r == v,
                None => match self.generator {
                    Some(g) => g.may_generate_single(pos, channel_index, r),
                    None => r == defval,
                },
            }
        }
    }

    /// Reading voxel `pos` takes a value from memory or from the generator.
    pub open spec fn looks_up(self, pos: Vector3i, c: int) -> bool {
        self.bounds.has(pos@) && (self.streaming_enabled || self.full_load_completed) && (
        self.resident(pos, c) is Some || self.generator is Some)
    }

    /// Setting voxel `pos` is possible: it lies inside the bounds, and its
    /// block is loaded or may be made up.
    pub open spec fn can_set_voxel(self, pos: Vector3i) -> bool {
        self.bounds.has(pos@) && (self.lods[0].has(voxel_data_map::block_of(pos)) || (
        !self.streaming_enabled && self.full_load_completed))
    }

    /// The data with voxel `pos` set. A block without voxels gets new ones.
    pub open spec fn voxel_set(self, pos: Vector3i, c: int, value: u64) -> DataModel {
        let bp = voxel_data_map::block_of(pos);
        let m = if self.lods[0].has_voxels(bp) {
            self.lods[0]
        } else {
            self.lods[0].with_buffer(bp, voxel_data_map::block_buffer(self.format))
        };
        self.with_lod(0, m.voxel_set(pos, c, value))
    }

    /// The number of blocks of the first `n` levels.
    pub open spec fn blocks_below(self, n: int) -> nat
        decreases n,
    {
        if n <= 0 {
            0
        } else {
            self.blocks_below(n - 1) + self.lods[n - 1].blocks.len()
        }
    }
}

impl VoxelData {
    /// The map of level `l` is the one in the model.
    proof fn lemma_lod(&self, l: int)
        requires
            self.wf(),
            0 <= l < self.lods@.len(),
        ensures
            self.lods@[l].wf(),
            self@.lods[l] == self.lods@[l]@,
            self@.lods.len() == self.lods@.len(),
    {
        assert(self.lods@[l].wf());
    }

    /// Pastes the selected channels of a buffer at the finest level.
    pub fn paste(
        &mut self,
        min_pos: Vector3i,
        src_buffer: &VoxelBuffer,
        channels_mask: u32,
        create_new_blocks: bool,
    )
        requires
            old(self).wf(),
            src_buffer.wf(),
            min_pos@.plus(src_buffer@.size).fits(),
        ensures
            final(self).wf(),
            final(self)@ == old(self)@.with_lod(
                0,
                map_paste::pasted_map(
                    old(self)@.lods[0],
                    min_pos@,
                    src_buffer@,
                    (map_paste::PasteRules { src_mask: None, dst_mask: None }),
                    channels_mask,
                    create_new_blocks,
                ),
            ),
    {
        proof {
            self.lemma_lod(0);
        }
        self.lods[0].paste(min_pos, src_buffer, channels_mask, create_new_blocks);
        proof {
            self.lemma_lod_replaced(old(self), 0);
        }
    }

    /// Like `paste`; source voxels whose mask channel has the mask value are
    /// skipped.
    pub fn paste_masked(
        &mut self,
        min_pos: Vector3i,
        src_buffer: &VoxelBuffer,
        channels_mask: u32,
        src_mask_channel: usize,
        src_mask_value: u64,
        create_new_blocks: bool,
    )
        requires
            old(self).wf(),
            src_buffer.wf(),
            min_pos@.plus(src_buffer@.size).fits(),
            src_mask_channel < MAX_CHANNELS,
        ensures
            final(self).wf(),
            final(self)@ == old(self)@.with_lod(
                0,
                map_paste::pasted_map(
                    old(self)@.lods[0],
                    min_pos@,
                    src_buffer@,
                    (map_paste::PasteRules {
                        src_mask: Some((src_mask_channel as int, src_mask_value)),
                        dst_mask: None,
                    }),
                    channels_mask,
                    create_new_blocks,
                ),
            ),
    {
        proof {
            self.lemma_lod(0);
        }
        self.lods[0].paste_masked(
            min_pos,
            src_buffer,
            channels_mask,
            src_mask_channel,
            src_mask_value,
            create_new_blocks,
        );
        proof {
            self.lemma_lod_replaced(old(self), 0);
        }
    }

    /// Like `paste_masked`; destination voxels whose mask channel has a value
    /// that is not listed as writable are skipped as well.
    pub fn paste_masked_with_destination_mask(
        &mut self,
        min_pos: Vector3i,
        src_buffer: &VoxelBuffer,
        channels_mask: u32,
        src_mask_channel: usize,
        src_mask_value: u64,
        dst_mask_channel: usize,
        dst_writable_values: &[u64],
        create_new_blocks: bool,
    )
        requires
            old(self).wf(),
            src_buffer.wf(),
            min_pos@.plus(src_buffer@.size).fits(),
            src_mask_channel < MAX_CHANNELS,
            dst_mask_channel < MAX_CHANNELS,
        ensures
            final(self).wf(),
            final(self)@ == old(self)@.with_lod(
                0,
                map_paste::pasted_map(
                    old(self)@.lods[0],
                    min_pos@,
                    src_buffer@,
                    (map_paste::PasteRules {
                        src_mask: Some((src_mask_channel as int, src_mask_value)),
                        dst_mask: Some((dst_mask_channel as int, dst_writable_values@)),
                    }),
                    channels_mask,
                    create_new_blocks,
                ),
            ),
    {
        proof {
            self.lemma_lod(0);
        }
        self.lods[0].paste_masked_with_destination_mask(
            min_pos,
            src_buffer,
            channels_mask,
            src_mask_channel,
            src_mask_value,
            dst_mask_channel,
            dst_writable_values,
            create_new_blocks,
        );
        proof {
            self.lemma_lod_replaced(old(self), 0);
        }
    }

    /// Every block that a box of voxels touches is loaded at the finest level.
    /// While data is streamed, a box that leaves the bounds is not.
    pub fn is_area_loaded(&self, voxel_box: Box3i) -> (b: bool)
        requires
            self.wf(),
            voxel_box.representable(),
        ensures
            b == (!(self@.streaming_enabled && !(self@.bounds.position@.le(voxel_box.position@)
                && voxel_box.end().le(self@.bounds.end()))) && forall|p: Vector3i|
                p@.within(
                    voxel_box.over(BLOCK_SIZE as int).0,
                    voxel_box.over(BLOCK_SIZE as int).1,
                ) && !voxel_box.vacant() ==> #[trigger] self@.lods[0].has(p)),
    {
        proof {
            self.lemma_lod(0);
        }
        if self.streaming_enabled && !self.bounds_in_voxels.contains_box(voxel_box) {
            return false;
        }
        self.lods[0].is_area_fully_loaded(voxel_box)
    }

    /// Every block of a box of block positions is loaded at a level, as far as
    /// the box lies in the bounds of the data.
    pub fn has_all_blocks_in_area(&self, blocks_box: Box3i, lod_index: usize) -> (b: bool)
        requires
            self.wf(),
            blocks_box.representable(),
        ensures
            b == (lod_index < self@.lods.len() && forall|p: Vector3i|
                blocks_box.has(p@) && boxes::lod_bounds(self@.bounds, lod_index as nat).has(p@)
                    ==> #[trigger] self@.lods[lod_index as int].has(p)),
    {
        if lod_index >= self.lods.len() {
            return false;
        }
        if blocks_box.is_empty() {
            return true;
        }
        let bounds = boxes::blocks_in_bounds(self.bounds_in_voxels, lod_index);
        proof {
            self.lemma_lod(lod_index as int);
            boxes::lemma_intersection(blocks_box, bounds);
        }
        match boxes::checked_box_intersection(blocks_box, bounds) {
            Ok(inside) => voxel_data_map::all_blocks_present(&self.lods[lod_index], inside),
            Err(_) => {
                assert(false);
                false
            },
        }
    }

    /// Appends the positions of a box, in ZXY order, that have no block at a
    /// level.
    pub fn get_missing_blocks(
        &self,
        blocks_box: Box3i,
        lod_index: usize,
        out_missing: &mut Vec<Vector3i>,
    )
        requires
            self.wf(),
            blocks_box.representable(),
        ensures
            final(out_missing)@ == old(out_missing)@ + blocks_box.cells().filter(
                |p: Vector3i| !self@.has_block(p, lod_index as int),
            ),
    {
        let ghost missing = |p: Vector3i| !self@.has_block(p, lod_index as int);
        let ghost cells = blocks_box.cells();
        let n: u128 = blocks_box.cell_count();
        let mut i: u128 = 0;
        proof {
            collections::lemma_filter_none(cells, missing);
        }
        while i < n
            invariant
                i <= n,
                n == cells.len(),
                cells == blocks_box.cells(),
                blocks_box.representable(),
                self.wf(),
                missing == (|p: Vector3i| !self@.has_block(p, lod_index as int)),
                out_missing@ == old(out_missing)@ + cells.take(i as int).filter(missing),
            decreases n - i,
        {
            let p = blocks_box.cell(i);
            proof {
                collections::lemma_filter_take(cells, missing, i as int);
            }
            if !self.has_block(p, lod_index) {
                out_missing.push(p);
                assert(out_missing@ =~= old(out_missing)@ + cells.take(i + 1).filter(missing));
            }
            i = i + 1;
        }
        assert(cells.take(n as int) =~= cells);
    }

    /// The voxels of each block of a box, in ZXY order; `None` where there are
    /// none. Nothing for a level that does not exist.
    pub fn get_blocks_with_voxel_data(&self, blocks_box: Box3i, lod_index: usize) -> (r: Vec<
        Option<&VoxelBuffer>,
    >)
        requires
            self.wf(),
            blocks_box.representable(),
        ensures
            lod_index >= self@.lods.len() ==> r@.len() == 0,
            lod_index < self@.lods.len() ==> {
                &&& r@.len() == blocks_box.cells().len()
                &&& forall|i: int|
                    0 <= i < r@.len() ==> {
                        let m = self@.lods[lod_index as int];
                        let p = blocks_box.cells()[i];
                        &&& #[trigger] r@[i] is Some <==> m.has_voxels(p)
                        &&& r@[i] matches Some(v) ==> v.wf() && Some(v@) == m.blocks[p].voxels
                    }
            },
    {
        let mut r: Vec<Option<&VoxelBuffer>> = Vec::new();
        if lod_index >= self.lods.len() {
            return r;
        }
        proof {
            self.lemma_lod(lod_index as int);
        }
        let map = &self.lods[lod_index];
        let n: u128 = blocks_box.cell_count();
        let mut i: u128 = 0;
        while i < n
            invariant
                i <= n,
                n == blocks_box.cells().len(),
                blocks_box.representable(),
                map.wf(),
                self@.lods[lod_index as int] == map@,
                r@.len() == i,
                forall|k: int|
                    0 <= k < i ==> {
                        let m = map@;
                        let p = blocks_box.cells()[k];
                        &&& #[trigger] r@[k] is Some <==> m.has_voxels(p)
                        &&& r@[k] matches Some(v) ==> v.wf() && Some(v@) == m.blocks[p].voxels
                    },
            decreases n - i,
        {
            let p = blocks_box.cell(i);
            let found: Option<&VoxelBuffer> = match map.get_block(p) {
                Some(block) => if block.has_voxels() {
                    Some(block.voxels())
                } else {
                    None
                },
                None => None,
            };
            r.push(found);
            i = i + 1;
        }
        r
    }

    /// A voxel's raw value. Where only the default can be read, the channel need
    /// not exist.
    pub fn get_voxel(&self, pos: Vector3i, channel_index: usize, defval: u64) -> (r: u64)
        requires
            self.wf(),
            self@.looks_up(pos, channel_index as int) ==> channel_index < MAX_CHANNELS,
        ensures
            self@.reads(pos, channel_index, defval, r),
    {
        if !self.bounds_in_voxels.contains_point(pos) {
            return defval;
        }
        if !self.streaming_enabled && !self.full_load_completed {
            return defval;
        }
        match self.resident_voxel(pos, channel_index) {
            Some(v) => v,
            None => match &self.generator {
                Some(g) => g.generate_single(pos, channel_index),
                None => defval,
            },
        }
    }

    /// The value of a voxel that memory holds.
    pub fn resident_voxel(&self, pos: Vector3i, channel_index: usize) -> (r: Option<u64>)
        requires
            self.wf(),
            self@.resident(pos, channel_index as int) is Some ==> channel_index < MAX_CHANNELS,
        ensures
            r == self@.resident(pos, channel_index as int),
    {
        let levels: usize = if self.streaming_enabled {
            self.lods.len()
        } else {
            1
        };
        let ghost c = channel_index as int;
        let mut voxel_pos = pos;
        let mut l: usize = 0;
        while l < levels
            invariant
                l <= levels,
                1 <= levels <= self.lods@.len(),
                levels == (if self.streaming_enabled {
                    self.lods@.len()
                } else {
                    1
                }),
                self.wf(),
                c == channel_index,
                self@.resident(pos, c) is Some ==> channel_index < MAX_CHANNELS,
                self@.streaming_enabled == self.streaming_enabled,
                l == 0 ==> voxel_pos == pos,
                self@.streaming_enabled ==> self@.resident(pos, c) == self@.probed(
                    l as int,
                    voxel_pos,
                    c,
                ),
                !self@.streaming_enabled && l > 0 ==> self@.resident(pos, c) is None,
            decreases levels - l,
        {
            proof {
                self.lemma_lod(l as int);
            }
            match self.lods[l].get_block(VoxelDataMap::voxel_to_block(voxel_pos)) {
                Some(block) => {
                    if block.has_voxels() {
                        let p = VoxelDataMap::to_local(voxel_pos);
                        return Some(block.voxels().get_voxel(p.x, p.y, p.z, channel_index));
                    }
                },
                None => {},
            }
            let next = voxel_pos.floor_div(2);
            assert(next == Vector3i::from_cell(voxel_pos@.over(2)));
            voxel_pos = next;
            l = l + 1;
        }
        proof {
            assert(self@.lods.len() == self.lods@.len());
        }
        None
    }

    /// Sets a voxel at the finest level. False, with nothing changed, where it
    /// lies outside the bounds, or its block is not loaded and may not be made
    /// up.
    pub fn try_set_voxel(&mut self, value: u64, pos: Vector3i, channel_index: usize) -> (b: bool)
        requires
            old(self).wf(),
            old(self)@.can_set_voxel(pos) ==> channel_index < MAX_CHANNELS,
        ensures
            final(self).wf(),
            b == old(self)@.can_set_voxel(pos),
            final(self)@ == if b {
                old(self)@.voxel_set(pos, channel_index as int, value)
            } else {
                old(self)@
            },
    {
        if !self.bounds_in_voxels.contains_point(pos) {
            return false;
        }
        proof {
            self.lemma_lod(0);
        }
        let block_pos = VoxelDataMap::voxel_to_block(pos);
        let state = match self.lods[0].get_block(block_pos) {
            Some(block) => Some(block.has_voxels()),
            None => None,
        };
        match state {
            Some(true) => {},
            Some(false) => {
                let voxels = self.create_block_buffer();
                self.lods[0].set_block_buffer(block_pos, voxels, true);
            },
            None => {
                if self.streaming_enabled || !self.full_load_completed {
                    return false;
                }
                let voxels = self.create_block_buffer();
                self.lods[0].set_block_buffer(block_pos, voxels, true);
            },
        }
        self.lods[0].set_voxel(value, pos, channel_index);
        proof {
            assert(self.lods@ =~= old(self).lods@.update(0, self.lods@[0]));
            self.lemma_lod_replaced(old(self), 0);
        }
        true
    }

    /// A new buffer for one block.
    fn create_block_buffer(&self) -> (b: VoxelBuffer)
        ensures
            b.wf(),
            b@ == voxel_data_map::block_buffer(self@.format),
            b@.size == Cell::splat(BLOCK_SIZE as int),
    {
        map_paste::new_block_buffer(self.format)
    }

    /// The voxels of a block at the finest level.
    pub fn try_get_block_voxels(&self, block_pos: Vector3i) -> (r: Option<&VoxelBuffer>)
        requires
            self.wf(),
        ensures
            r is Some <==> self@.lods[0].has_voxels(block_pos),
            r matches Some(v) ==> v.wf() && Some(v@) == self@.lods[0].blocks[block_pos].voxels,
    {
        match self.get_block(block_pos, 0) {
            Some(block) => if block.has_voxels() {
                Some(block.voxels())
            } else {
                None
            },
            None => None,
        }
    }

    /// Puts a block where there is none. False, with nothing changed, where
    /// there is one.
    pub fn try_set_block(&mut self, block_pos: Vector3i, block: VoxelDataBlock) -> (b: bool)
        requires
            old(self).wf(),
            block.wf(),
            block@.lod_index < old(self)@.lods.len(),
            voxel_data_map::block_fits(block@),
        ensures
            final(self).wf(),
            b == !old(self)@.lods[block@.lod_index as int].has(block_pos),
            final(self)@ == if b {
                old(self)@.with_lod(
                    block@.lod_index as int,
                    old(self)@.lods[block@.lod_index as int].with_block(block_pos, block@),
                )
            } else {
                old(self)@
            },
    {
        let l: usize = block.lod_index() as usize;
        proof {
            self.lemma_lod(l as int);
        }
        if self.lods[l].has_block(block_pos) {
            return false;
        }
        self.lods[l].set_block(block_pos, block, false);
        proof {
            self.lemma_lod_replaced(old(self), l as int);
        }
        true
    }

    pub fn has_block(&self, block_pos: Vector3i, lod_index: usize) -> (b: bool)
        requires
            self.wf(),
        ensures
            b == self@.has_block(block_pos, lod_index as int),
    {
        if lod_index >= self.lods.len() {
            return false;
        }
        proof {
            self.lemma_lod(lod_index as int);
        }
        self.lods[lod_index].has_block(block_pos)
    }

    /// Number of blocks at all levels.
    pub fn block_count(&self) -> (n: usize)
        requires
            self.wf(),
            self@.blocks_below(self@.lods.len() as int) <= usize::MAX,
        ensures
            n == self@.blocks_below(self@.lods.len() as int),
    {
        let mut n: usize = 0;
        let mut l: usize = 0;
        while l < self.lods.len()
            invariant
                l <= self.lods@.len(),
                self@.lods.len() == self.lods@.len(),
                self.wf(),
                n == self@.blocks_below(l as int),
                self@.blocks_below(self@.lods.len() as int) <= usize::MAX,
            decreases self.lods@.len() - l,
        {
            proof {
                self.lemma_lod(l as int);
                self.lemma_blocks_below(l + 1, self.lods@.len() as int);
            }
            n = n + self.lods[l].block_count();
            l = l + 1;
        }
        n
    }

    proof fn lemma_blocks_below(&self, a: int, b: int)
        requires
            0 <= a <= b,
        ensures
            self@.blocks_below(a) <= self@.blocks_below(b),
        decreases b - a,
    {
        if a < b {
            self.lemma_blocks_below(a, b - 1);
        }
    }

    pub fn get_block(&self, block_pos: Vector3i, lod_index: usize) -> (r: Option<&VoxelDataBlock>)
        requires
            self.wf(),
        ensures
            r is Some <==> self@.has_block(block_pos, lod_index as int),
            r matches Some(b) ==> b.wf() && b@ == self@.lods[lod_index as int].blocks[block_pos],
    {
        if lod_index >= self.lods.len() {
            return None;
        }
        proof {
            self.lemma_lod(lod_index as int);
        }
        self.lods[lod_index].get_block(block_pos)
    }
}

/// The blocks that a box of voxels touches form a box with representable
/// corners.
pub proof fn lemma_voxel_box_blocks(b: Box3i)
    ensures
        b.over(BLOCK_SIZE as int).1.minus(b.over(BLOCK_SIZE as int).0).fits(),
        b.over(BLOCK_SIZE as int).0.fits(),
        b.over(BLOCK_SIZE as int).1.fits(),
{
}

/// The box of blocks that a box of voxels touches.
pub open spec fn touched_blocks(b: Box3i) -> Box3i {
    let (lo, hi) = b.over(BLOCK_SIZE as int);
    Box3i { position: Vector3i::from_cell(lo), size: Vector3i::from_cell(hi.minus(lo)) }
}

/// `b` with blocks in place of voxels.
pub(crate) fn touched(b: Box3i) -> (r: Box3i)
    ensures
        r == touched_blocks(b),
        r.representable(),
        r.end() == b.over(BLOCK_SIZE as int).1,
        r.position@ == b.over(BLOCK_SIZE as int).0,
{
    proof {
        lemma_voxel_box_blocks(b);
    }
    let r = b.downscaled(BLOCK_SIZE);
    proof {
        assert(r.size@ == r.end().minus(r.position@));
        assert(touched_blocks(b).size@ == r.size@);
    }
    r
}

/// `saves` holds what has to be saved of the first `n` levels, one level after
/// the other.
pub open spec fn saves_levels(d: DataModel, n: int, saves: Seq<SaveModel>) -> bool
    decreases n,
{
    if n <= 0 {
        saves == Seq::<SaveModel>::empty()
    } else {
        exists|b: Seq<SaveModel>|
            #![trigger map_areas::saves_all(d.lods[n - 1], (n - 1) as u8, b)]
            map_areas::saves_all(d.lods[n - 1], (n - 1) as u8, b) && b.len() <= saves.len()
                && saves == saves.take(saves.len() - b.len()) + b && saves_levels(
                d,
                n - 1,
                saves.take(saves.len() - b.len()),
            )
    }
}

proof fn lemma_saves_levels(d: DataModel, n: int, a: Seq<SaveModel>, b: Seq<SaveModel>)
    requires
        n > 0,
        saves_levels(d, n - 1, a),
        map_areas::saves_all(d.lods[n - 1], (n - 1) as u8, b),
    ensures
        saves_levels(d, n, a + b),
{
    let saves = a + b;
    assert(saves.take(saves.len() - b.len()) =~= a);
}

impl DataModel {
    /// The cells that viewing a box of blocks at level `l` reaches: those
    /// inside the bounds, if the level exists and no corner lacks a
    /// representation.
    pub open spec fn view_cells(self, blocks_box: Box3i, l: int) -> Seq<Vector3i> {
        if 0 <= l < self.lods.len() && self.bounds.end().fits() && blocks_box.end().fits() {
            boxes::intersection(blocks_box, boxes::lod_bounds(self.bounds, l as nat)).cells()
        } else {
            Seq::empty()
        }
    }

    /// The cells of a box of blocks that count as missing though no level was
    /// looked at, because the bounds cannot be counted in its blocks.
    pub open spec fn unreachable_cells(self, blocks_box: Box3i, l: int) -> Seq<Vector3i> {
        if !boxes::lod_bounds_exist(self.bounds, l) && blocks_box.end().fits() {
            blocks_box.cells()
        } else {
            Seq::empty()
        }
    }

    /// The cells of a box of blocks inside the bounds at a level that does not
    /// exist.
    pub open spec fn absent_level_cells(self, blocks_box: Box3i, l: int) -> Seq<Vector3i> {
        if l >= self.lods.len() && boxes::lod_bounds_exist(self.bounds, l)
            && blocks_box.end().fits() {
            boxes::intersection(blocks_box, boxes::lod_bounds(self.bounds, l as nat)).cells()
        } else {
            Seq::empty()
        }
    }

    /// Level `l` changed at the listed positions.
    pub open spec fn changed(
        self,
        l: int,
        cells: Seq<Vector3i>,
        f: voxel_data_map::BlockChange,
    ) -> DataModel {
        if 0 <= l < self.lods.len() {
            self.with_lod(l, self.lods[l].changed(cells, f))
        } else {
            self
        }
    }
}

/// Appends the cells of a box whose corners have a representation.
fn extend_missing_blocks_if_representable(out: &mut Vec<Vector3i>, blocks_box: Box3i)
    ensures
        final(out)@ == old(out)@ + (if blocks_box.end().fits() {
            blocks_box.cells()
        } else {
            Seq::empty()
        }),
{
    match boxes::checked_box_intersection(blocks_box, blocks_box) {
        Ok(validated) => {
            proof {
                lemma_self_intersection(blocks_box);
            }
            extend_cells(out, validated);
        },
        Err(_) => {
            assert(out@ =~= old(out)@ + Seq::empty());
        },
    }
}

/// A box has its own cells in common with itself.
pub proof fn lemma_self_intersection(b: Box3i)
    requires
        b.end().fits(),
    ensures
        boxes::intersection(b, b).cells() == b.cells(),
        boxes::intersection(b, b).representable(),
{
    boxes::lemma_intersection(b, b);
    if b.vacant() {
        assert(boxes::intersection(b, b).vacant());
    } else {
        assert(b.position@.max(b.position@) == b.position@);
        assert(b.end().min(b.end()) == b.end());
        assert(b.end().minus(b.position@) == b.size@);
        assert(boxes::intersection(b, b) == b);
    }
}

/// Appends the cells of a box in ZXY order.
pub fn extend_cells(out: &mut Vec<Vector3i>, area: Box3i)
    requires
        area.representable(),
    ensures
        final(out)@ == old(out)@ + area.cells(),
{
    let ghost cells = area.cells();
    let n: u128 = area.cell_count();
    let mut i: u128 = 0;
    assert(out@ =~= old(out)@ + cells.take(0));
    while i < n
        invariant
            i <= n,
            n == cells.len(),
            cells == area.cells(),
            area.representable(),
            out@ == old(out)@ + cells.take(i as int),
        decreases n - i,
    {
        out.push(area.cell(i));
        assert(out@ =~= old(out)@ + cells.take(i + 1));
        i = i + 1;
    }
    assert(cells.take(n as int) =~= cells);
}

impl VoxelData {
    /// The map of a level.
    pub(crate) fn lod(&self, l: usize) -> (m: &VoxelDataMap)
        requires
            self.wf(),
            l < self@.lods.len(),
        ensures
            m.wf(),
            m@ == self@.lods[l as int],
    {
        proof {
            self.lemma_lod(l as int);
        }
        &self.lods[l]
    }

    /// The map of a level, to be changed. The data stays well-formed as long as
    /// the map does and keeps its level and format.
    pub(crate) fn lod_mut(&mut self, l: usize) -> (m: &mut VoxelDataMap)
        requires
            old(self).wf(),
            l < old(self)@.lods.len(),
        ensures
            m.wf(),
            m@ == old(self)@.lods[l as int],
            final(m).wf() && final(m)@.lod_index == m@.lod_index && final(m)@.format == m@.format
                ==> final(self).wf(),
            final(self)@ == old(self)@.with_lod(l as int, final(m)@),
    {
        proof {
            self.lemma_lod(l as int);
            self.lemma_any_lod(l as int);
        }
        &mut self.lods[l]
    }

    /// Whatever becomes of one map, the model follows.
    proof fn lemma_any_lod(&self, l: int)
        requires
            self.wf(),
            0 <= l < self.lods@.len(),
        ensures
            forall|after: VoxelData|
                #![trigger after.wf()]
                #![trigger after.view()]
                after.lods@ == self.lods@.update(l, after.lods@[l]) && after.format == self.format
                    && after.bounds_in_voxels == self.bounds_in_voxels && after.full_load_completed
                    == self.full_load_completed && after.streaming_enabled
                    == self.streaming_enabled && after.generator == self.generator && after.stream
                    == self.stream ==> after@ == self@.with_lod(l, after.lods@[l]@) && (
                after.lods@[l].wf() && after.lods@[l]@.lod_index == self.lods@[l]@.lod_index
                    && after.lods@[l]@.format == self.lods@[l]@.format ==> after.wf()),
    {
        assert forall|after: VoxelData|
            #![trigger after.wf()]
            #![trigger after.view()]
            after.lods@ == self.lods@.update(l, after.lods@[l]) && after.format == self.format
                && after.bounds_in_voxels == self.bounds_in_voxels && after.full_load_completed
                == self.full_load_completed && after.streaming_enabled == self.streaming_enabled
                && after.generator == self.generator && after.stream == self.stream implies after@
            == self@.with_lod(l, after.lods@[l]@) && (after.lods@[l].wf()
            && after.lods@[l]@.lod_index == self.lods@[l]@.lod_index && after.lods@[l]@.format
            == self.lods@[l]@.format ==> after.wf()) by {
            assert(after@.lods =~= self@.with_lod(l, after.lods@[l]@).lods);
            if after.lods@[l].wf() && after.lods@[l]@.lod_index == self.lods@[l]@.lod_index
                && after.lods@[l]@.format == self.lods@[l]@.format {
                after.lemma_lod_replaced(self, l);
            }
        }
    }

    /// Marks every block that a box of voxels touches at the finest level as
    /// modified. Returns those, in ZXY order, that newly wait for an update of
    /// the coarser levels.
    pub fn mark_area_modified(&mut self, voxel_box: Box3i, require_lod_updates: bool) -> (r: Vec<
        Vector3i,
    >)
        requires
            old(self).wf(),
        ensures
            final(self).wf(),
            final(self)@ == old(self)@.changed(
                0,
                touched_blocks(voxel_box).cells(),
                map_areas::mark_change(require_lod_updates),
            ),
            r@ == if require_lod_updates {
                touched_blocks(voxel_box).cells().filter(
                    |p: Vector3i| map_areas::newly_needs_lod(old(self)@.lods[0], p),
                )
            } else {
                Seq::empty()
            },
    {
        proof {
            self.lemma_lod(0);
        }
        let area = touched(voxel_box);
        map_areas::mark_blocks(self.lod_mut(0), area, require_lod_updates)
    }

    /// Takes the modification of a block at the finest level.
    pub fn consume_block_modifications(&mut self, block_pos: Vector3i) -> (r: Option<BlockToSave>)
        requires
            old(self).wf(),
        ensures
            final(self).wf(),
            consumed_one(old(self)@, final(self)@, block_pos, 0, r),
    {
        self.consume_block_modifications_at(block_pos, 0)
    }

    /// Takes the modification of a block.
    fn consume_block_modifications_at(&mut self, block_pos: Vector3i, lod_index: usize) -> (r: Option<
        BlockToSave,
    >)
        requires
            old(self).wf(),
        ensures
            final(self).wf(),
            consumed_one(old(self)@, final(self)@, block_pos, lod_index as int, r),
    {
        if lod_index >= self.lods.len() {
            return None;
        }
        proof {
            self.lemma_lod(lod_index as int);
            assert(self@.lods =~= self@.with_lod(
                lod_index as int,
                self@.lods[lod_index as int],
            ).lods);
        }
        map_areas::consume_modification(self.lod_mut(lod_index), block_pos, lod_index as u8)
    }

    /// Takes the modifications of all blocks, level by level, in no particular
    /// order within a level.
    pub fn consume_all_modifications(&mut self) -> (saves: Vec<BlockToSave>)
        requires
            old(self).wf(),
        ensures
            final(self).wf(),
            final(self)@ == (DataModel {
                lods: old(self)@.lods.map_values(|m: MapModel| cleaned(m)),
                ..old(self)@
            }),
            map_areas::saves_wf(saves@),
            saves_levels(
                old(self)@,
                old(self)@.lods.len() as int,
                map_areas::saves_of(saves@),
            ),
    {
        let mut saves: Vec<BlockToSave> = Vec::new();
        let n: usize = self.lods.len();
        let ghost before = self@;
        proof {
            assert(map_areas::saves_of(saves@) =~= Seq::empty());
        }
        let mut l: usize = 0;
        while l < n
            invariant
                l <= n,
                self.wf(),
                n == before.lods.len(),
                n < MAX_LOD,
                self@ == (DataModel { lods: self@.lods, ..before }),
                self@.lods.len() == n,
                forall|k: int| 0 <= k < l ==> #[trigger] self@.lods[k] == cleaned(before.lods[k]),
                forall|k: int| l <= k < n ==> #[trigger] self@.lods[k] == before.lods[k],
                map_areas::saves_wf(saves@),
                saves_levels(before, l as int, map_areas::saves_of(saves@)),
            decreases n - l,
        {
            let mut part = map_areas::consume_modifications(self.lod_mut(l), l as u8);
            let ghost a = map_areas::saves_of(saves@);
            let ghost b = map_areas::saves_of(part@);
            let ghost both = saves@ + part@;
            proof {
                assert(forall|k: int| 0 <= k < both.len() ==> (#[trigger] both[k]).wf());
            }
            saves.append(&mut part);
            proof {
                assert(map_areas::saves_of(saves@) =~= a + b);
                lemma_saves_levels(before, l + 1, a, b);
            }
            l = l + 1;
        }
        assert(self@.lods =~= before.lods.map_values(|m: MapModel| cleaned(m)));
        saves
    }

    /// Takes every block of a box out of a level. What was modified is returned
    /// for saving if `collect_modified` says so. Nothing happens at a level that
    /// does not exist.
    pub fn unload_blocks(
        &mut self,
        blocks_box: Box3i,
        lod_index: usize,
        collect_modified: bool,
    ) -> (saves: Vec<BlockToSave>)
        requires
            old(self).wf(),
            blocks_box.representable(),
        ensures
            final(self).wf(),
            final(self)@ == old(self)@.changed(
                lod_index as int,
                blocks_box.cells(),
                map_areas::unload_change(),
            ),
            map_areas::saves_wf(saves@),
            map_areas::saves_of(saves@) == if collect_modified && lod_index < old(
                self,
            )@.lods.len() {
                map_areas::unload_saves(
                    old(self)@.lods[lod_index as int],
                    blocks_box.cells(),
                    lod_index as u8,
                )
            } else {
                Seq::empty()
            },
    {
        if lod_index >= self.lods.len() {
            let none: Vec<BlockToSave> = Vec::new();
            assert(map_areas::saves_of(none@) =~= Seq::empty());
            return none;
        }
        map_areas::unload_blocks(
            self.lod_mut(lod_index),
            blocks_box,
            lod_index as u8,
            collect_modified,
        )
    }

    /// Adds a viewer to every block of a box inside the bounds at a level, and
    /// appends to the lists that are given: positions without a block,
    /// positions with one, and copies of those blocks, each in ZXY order. Where
    /// the bounds cannot be counted in blocks of the level, the whole box counts
    /// as missing.
    pub fn view_area(
        &mut self,
        blocks_box: Box3i,
        lod_index: usize,
        missing_blocks: Option<&mut Vec<Vector3i>>,
        found_blocks_positions: Option<&mut Vec<Vector3i>>,
        found_blocks: Option<&mut Vec<VoxelDataBlock>>,
    )
        requires
            old(self).wf(),
            found_blocks matches Some(v) ==> map_areas::blocks_wf(v@),
        ensures
            final(self).wf(),
            final(self)@ == old(self)@.changed(
                lod_index as int,
                old(self)@.view_cells(blocks_box, lod_index as int),
                map_areas::view_change(),
            ),
            match missing_blocks {
                Some(v) => final(v)@ == v@ + old(self)@.unreachable_cells(
                    blocks_box,
                    lod_index as int,
                ) + old(self)@.view_cells(blocks_box, lod_index as int).filter(
                    |p: Vector3i| !old(self)@.has_block(p, lod_index as int),
                ),
                None => true,
            },
            match found_blocks_positions {
                Some(v) => final(v)@ == v@ + old(self)@.view_cells(
                    blocks_box,
                    lod_index as int,
                ).filter(|p: Vector3i| old(self)@.has_block(p, lod_index as int)),
                None => true,
            },
            match found_blocks {
                Some(v) => map_areas::blocks_wf(final(v)@) && map_areas::blocks_of(final(v)@)
                    == map_areas::blocks_of(v@) + old(self)@.view_cells(
                    blocks_box,
                    lod_index as int,
                ).filter(|p: Vector3i| old(self)@.has_block(p, lod_index as int)).map_values(
                    |p: Vector3i|
                        map_areas::viewed(old(self)@.lods[lod_index as int].blocks[p]),
                ),
                None => true,
            },
    {
        let ghost before = self@;
        let ghost l = lod_index as int;
        let ghost absent = |p: Vector3i| !before.has_block(p, l);
        let ghost present = |p: Vector3i| before.has_block(p, l);
        let ghost seen = |p: Vector3i| map_areas::viewed(before.lods[l].blocks[p]);
        proof {
            self.lemma_wf();
            collections::lemma_filter_empty(absent);
            collections::lemma_filter_empty(present);
            assert(Seq::<Vector3i>::empty().map_values(seen) =~= Seq::empty());
            lemma_no_change(before, l, map_areas::view_change());
            collections::lemma_add_empty::<BlockModel>();
            collections::lemma_add_empty::<Vector3i>();
        }
        let bounds_in_blocks = match boxes::bounds_in_lod_blocks(
            self.bounds_in_voxels,
            lod_index,
        ) {
            Ok(b) => b,
            Err(_) => {
                match missing_blocks {
                    Some(out) => extend_missing_blocks_if_representable(out, blocks_box),
                    None => {},
                }
                return;
            },
        };
        proof {
            boxes::lemma_lod_bounds(before.bounds, lod_index as nat);
        }
        let area = match boxes::checked_box_intersection(blocks_box, bounds_in_blocks) {
            Ok(area) => area,
            Err(_) => return,
        };
        if lod_index >= self.lods.len() {
            return;
        }
        proof {
            boxes::lemma_intersection(blocks_box, bounds_in_blocks);
            self.lemma_lod(l);
            let m = before.lods[l];
            assert(absent =~= (|p: Vector3i| !m.has(p)));
            assert(present =~= (|p: Vector3i| m.has(p)));
        }
        let mut outcome = map_areas::view_blocks(
            self.lod_mut(lod_index),
            area,
            found_blocks.is_some(),
        );
        match missing_blocks {
            Some(out) => out.append(&mut outcome.missing),
            None => {},
        }
        match found_blocks_positions {
            Some(out) => out.append(&mut outcome.found_positions),
            None => {},
        }
        match found_blocks {
            Some(out) => {
                let ghost a = out@;
                let ghost b = outcome.found_blocks@;
                out.append(&mut outcome.found_blocks);
                proof {
                    assert(map_areas::blocks_of(a + b) =~= map_areas::blocks_of(a)
                        + map_areas::blocks_of(b));
                    assert(forall|k: int| 0 <= k < (a + b).len() ==> (#[trigger] (a + b)[k]).wf());
                }
            },
            None => {},
        }
    }
}

impl VoxelData {
    /// Takes a viewer from every block of a box inside the bounds at a level; a
    /// block without viewers goes. Appends to the lists that are given:
    /// positions whose block is gone, positions without a block, and what has
    /// to be saved, each in ZXY order. Where the level does not exist, the box
    /// counts as missing.
    pub fn unview_area(
        &mut self,
        blocks_box: Box3i,
        lod_index: usize,
        removed_blocks: Option<&mut Vec<Vector3i>>,
        missing_blocks: Option<&mut Vec<Vector3i>>,
        to_save: Option<&mut Vec<BlockToSave>>,
    )
        requires
            old(self).wf(),
            to_save matches Some(v) ==> map_areas::saves_wf(v@),
        ensures
            final(self).wf(),
            final(self)@ == old(self)@.changed(
                lod_index as int,
                old(self)@.view_cells(blocks_box, lod_index as int),
                map_areas::unview_change(),
            ),
            match removed_blocks {
                Some(v) => final(v)@ == v@ + old(self)@.view_cells(
                    blocks_box,
                    lod_index as int,
                ).filter(
                    |p: Vector3i|
                        map_areas::loses_last_viewer(old(self)@.lods[lod_index as int], p),
                ),
                None => true,
            },
            match missing_blocks {
                Some(v) => final(v)@ == v@ + old(self)@.unreachable_cells(
                    blocks_box,
                    lod_index as int,
                ) + old(self)@.absent_level_cells(blocks_box, lod_index as int) + old(
                    self,
                )@.view_cells(blocks_box, lod_index as int).filter(
                    |p: Vector3i| !old(self)@.has_block(p, lod_index as int),
                ),
                None => true,
            },
            match to_save {
                Some(v) => map_areas::saves_wf(final(v)@) && map_areas::saves_of(final(v)@)
                    == map_areas::saves_of(v@) + map_areas::unview_saves(
                    old(self)@.lods[lod_index as int],
                    old(self)@.view_cells(blocks_box, lod_index as int),
                    lod_index as u8,
                ),
                None => true,
            },
    {
        let ghost before = self@;
        let ghost l = lod_index as int;
        let ghost absent = |p: Vector3i| !before.has_block(p, l);
        let ghost gone = |p: Vector3i| map_areas::loses_last_viewer(before.lods[l], p);
        let ghost kept = |p: Vector3i|
            map_areas::loses_last_viewer(before.lods[l], p) && map_areas::modified_at(
                before.lods[l],
                p,
            );
        let ghost save = |p: Vector3i| map_areas::save_of(before.lods[l], p, lod_index as u8);
        proof {
            self.lemma_wf();
            collections::lemma_filter_empty(absent);
            collections::lemma_filter_empty(gone);
            collections::lemma_filter_empty(kept);
            assert(Seq::<Vector3i>::empty().map_values(save) =~= Seq::empty());
            lemma_no_change(before, l, map_areas::unview_change());
            collections::lemma_add_empty::<SaveModel>();
            collections::lemma_add_empty::<Vector3i>();
        }
        let bounds_in_blocks = match boxes::bounds_in_lod_blocks(
            self.bounds_in_voxels,
            lod_index,
        ) {
            Ok(b) => b,
            Err(_) => {
                match missing_blocks {
                    Some(out) => extend_missing_blocks_if_representable(out, blocks_box),
                    None => {},
                }
                return;
            },
        };
        proof {
            boxes::lemma_lod_bounds(before.bounds, lod_index as nat);
        }
        let area = match boxes::checked_box_intersection(blocks_box, bounds_in_blocks) {
            Ok(area) => area,
            Err(_) => return,
        };
        proof {
            boxes::lemma_intersection(blocks_box, bounds_in_blocks);
        }
        if lod_index >= self.lods.len() {
            match missing_blocks {
                Some(out) => extend_cells(out, area),
                None => {},
            }
            return;
        }
        proof {
            self.lemma_lod(l);
            let m = before.lods[l];
            assert(absent =~= (|p: Vector3i| !m.has(p)));
        }
        let mut outcome = map_areas::unview_blocks(
            self.lod_mut(lod_index),
            area,
            lod_index as u8,
            to_save.is_some(),
        );
        match removed_blocks {
            Some(out) => out.append(&mut outcome.removed),
            None => {},
        }
        match missing_blocks {
            Some(out) => out.append(&mut outcome.missing),
            None => {},
        }
        match to_save {
            Some(out) => {
                let ghost a = out@;
                let ghost b = outcome.saves@;
                out.append(&mut outcome.saves);
                proof {
                    assert(map_areas::saves_of(a + b) =~= map_areas::saves_of(a)
                        + map_areas::saves_of(b));
                    assert(forall|k: int| 0 <= k < (a + b).len() ==> (#[trigger] (a + b)[k]).wf());
                }
            },
            None => {},
        }
    }
}

/// Nothing is changed where nothing is listed.
pub proof fn lemma_no_change(d: DataModel, l: int, f: voxel_data_map::BlockChange)
    ensures
        d.changed(l, Seq::empty(), f) == d,
{
    if 0 <= l < d.lods.len() {
        let m = d.lods[l];
        assert(m.changed(Seq::empty(), f).blocks =~= m.blocks);
        assert(d.with_lod(l, m).lods =~= d.lods);
    }
}

/// A map none of whose blocks is modified any more.
pub open spec fn cleaned(m: MapModel) -> MapModel {
    MapModel {
        blocks: m.blocks.map_values(|b: BlockModel| BlockModel { modified: false, ..b }),
        ..m
    }
}

/// What taking the modification of one block does.
pub open spec fn consumed_one(
    before: DataModel,
    after: DataModel,
    p: Vector3i,
    l: int,
    r: Option<BlockToSave>,
) -> bool {
    let m = before.lods[l];
    if l < before.lods.len() && map_areas::modified_at(m, p) {
        &&& after == before.with_lod(
            l,
            m.with_block(p, BlockModel { modified: false, ..m.blocks[p] }),
        )
        &&& r matches Some(s) && s.wf() && s@ == map_areas::save_of(m, p, l as u8)
    } else {
        after == before && r is None
    }
}

} // verus!
