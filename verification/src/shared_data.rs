//! Voxel data shared between tasks: the state that its locks protect, and what
//! guards each change of it.

use crate::boxes::{Box3i, BoxBounds3i};
use crate::generator::{SharedVoxelGenerator, SharedVoxelStream};
use crate::map_areas;
use crate::math::Vector3i;
use crate::mutation_error::SharedVoxelDataMutationError;
use crate::revision;
use crate::revision::VoxelDataKeyRevision;
use crate::spatial_lock;
use crate::spatial_lock::{LockedRegion, SpatialLock3D};
use crate::voxel_data::{DataModel, VoxelData, MAX_LOD};
use crate::voxel_data_block::VoxelDataBlock;
use crate::voxel_data_map;
use crate::voxel_data_map::{MapModel, VoxelDataMap};
use crate::voxel_format::VoxelFormat;
use std::ops::Deref;
use std::sync::atomic::AtomicBool;
use std::sync::Arc;
use vstd::prelude::*;

verus! {

/// What shared voxel data holds.
#[verifier::ext_equal]
pub struct SharedModel {
    pub data: DataModel,
    /// Counts the changes of the settings.
    pub settings_revision: u64,
    /// Changes are no longer admitted.
    pub closed: bool,
    /// Tells this data from all other shared data.
    pub lineage: DataLineage,
    /// Number of previews begun so far.
    pub previews: u64,
    /// The regions in use at each level.
    pub regions: Seq<Seq<LockedRegion>>,
}

impl SharedModel {
    /// The data with another map at level `l`.
    pub open spec fn with_lod(self, l: int, m: MapModel) -> SharedModel {
        SharedModel { data: self.data.with_lod(l, m), ..self }
    }

    /// The data with other maps.
    pub open spec fn with_lods(self, lods: Seq<MapModel>) -> SharedModel {
        SharedModel { data: DataModel { lods, ..self.data }, ..self }
    }

    /// Level `l` exists.
    pub open spec fn has_lod(self, l: int) -> bool {
        0 <= l < self.data.lods.len()
    }

    /// A block that is missing may be made: all data has been loaded and
    /// nothing is streamed.
    pub open spec fn may_materialize(self) -> bool {
        !self.data.streaming_enabled && self.data.full_load_completed
    }
}

/// The settings at one moment.
pub struct SharedVoxelDataSettingsSnapshot {
    pub revision: u64,
    pub format: VoxelFormat,
    pub bounds_in_voxels: Box3i,
    pub full_load_completed: bool,
    pub streaming_enabled: bool,
    pub generator: Option<SharedVoxelGenerator>,
    pub stream: Option<SharedVoxelStream>,
}

impl SharedVoxelDataSettingsSnapshot {
    /// These are the settings of `s`.
    pub open spec fn shows(self, s: SharedModel) -> bool {
        &&& self.revision == s.settings_revision
        &&& self.format@ == s.data.format
        &&& self.bounds_in_voxels == s.data.bounds
        &&& self.full_load_completed == s.data.full_load_completed
        &&& self.streaming_enabled == s.data.streaming_enabled
        &&& self.generator == s.data.generator
        &&& self.stream == s.data.stream
    }
}

/// Tells shared data from all other shared data: a handle of an object that was
/// made for it alone.
#[derive(Debug)]
pub struct DataLineage {
    object: Arc<AtomicBool>,
}

impl DataLineage {
    /// A lineage of its own. Each call makes a new object; that no other data
    /// has it is left open, as a contract speaks of one call.
    fn new() -> DataLineage {
        DataLineage { object: Arc::new(AtomicBool::new(false)) }
    }

    /// Both are of one data.
    pub fn same_as(&self, other: &DataLineage) -> (same: bool)
        ensures
            same == (*self == *other),
    {
        same_object(&self.object, &other.object)
    }
}

impl Clone for DataLineage {
    fn clone(&self) -> (l: DataLineage)
        ensures
            l == *self,
    {
        DataLineage { object: self.object.clone() }
    }
}

/// `Arc::ptr_eq`: whether both handles are of one object. An atomic is not what
/// it holds at a time, so the value of an atomic tells it from all others, and
/// handles of atomics are equal exactly where they are of one atomic.
#[verifier::external_body]
fn same_object(a: &Arc<AtomicBool>, b: &Arc<AtomicBool>) -> (same: bool)
    ensures
        same == (*a == *b),
{
    Arc::ptr_eq(a, b)
}

/// The right to change data after changes are no longer admitted.
#[derive(Debug)]
pub struct SharedVoxelDataShutdownMutationPermit {
    lineage: DataLineage,
}

impl SharedVoxelDataShutdownMutationPermit {
    /// The data that the permit is for.
    pub closed spec fn view(&self) -> DataLineage {
        self.lineage
    }

    /// The permit is for the data with this lineage.
    pub fn matches(&self, lineage: &DataLineage) -> (b: bool)
        ensures
            b == (self@ == *lineage),
    {
        self.lineage.same_as(lineage)
    }
}

/// Voxel data shared between tasks. Every change checks that the data is still
/// what the change was prepared for, and is made as a whole or not at all. Each
/// block key has a revision that every change of its block advances.
pub struct SharedVoxelData {
    data: VoxelData,
    settings_revision: u64,
    mutation_admission_closed: bool,
    lineage: DataLineage,
    previews: u64,
    spatial_locks: Vec<SpatialLock3D>,
}

impl View for SharedVoxelData {
    type V = SharedModel;

    closed spec fn view(&self) -> SharedModel {
        SharedModel {
            data: self.data@,
            settings_revision: self.settings_revision,
            closed: self.mutation_admission_closed,
            lineage: self.lineage,
            previews: self.previews,
            regions: Seq::new(self.spatial_locks@.len(), |l: int| self.spatial_locks@[l]@),
        }
    }
}

/// The map of a level, held for reading.
pub struct SharedVoxelDataLodReadGuard<'a> {
    map: &'a VoxelDataMap,
}

impl<'a> View for SharedVoxelDataLodReadGuard<'a> {
    type V = MapModel;

    closed spec fn view(&self) -> MapModel {
        self.map@
    }
}

impl<'a> SharedVoxelDataLodReadGuard<'a> {
    pub closed spec fn wf(&self) -> bool {
        self.map.wf()
    }
}

impl<'a> Deref for SharedVoxelDataLodReadGuard<'a> {
    type Target = VoxelDataMap;

    fn deref(&self) -> (m: &VoxelDataMap)
        ensures
            m@ == self@,
            m.wf() == self.wf(),
    {
        self.map
    }
}

/// `Arc::ptr_eq`: whether both handles are of one generator. Handles of one
/// generator have the same value; different generators may have the same value
/// too, which is left open.
#[verifier::external_body]
fn same_generator(a: &SharedVoxelGenerator, b: &SharedVoxelGenerator) -> (same: bool)
    ensures
        same ==> *a == *b,
{
    Arc::ptr_eq(a, b)
}

/// The outcome of installing a generator, where `unchanged` says whether it is
/// the one already there.
pub open spec fn generator_outcome(
    before: SharedModel,
    generator: Option<SharedVoxelGenerator>,
    unchanged: bool,
    r: Result<(), SharedVoxelDataMutationError>,
    after: SharedModel,
) -> bool {
    if before.closed {
        r == Err::<(), _>(SharedVoxelDataMutationError::MutationAdmissionClosed) && after == before
    } else if unchanged {
        r is Ok && after == before
    } else if before.settings_revision == u64::MAX {
        r == Err::<(), _>(SharedVoxelDataMutationError::SettingsRevisionOverflow) && after
            == before
    } else {
        r is Ok && after == (SharedModel {
            data: DataModel { generator, ..before.data },
            settings_revision: (before.settings_revision + 1) as u64,
            ..before
        })
    }
}

impl SharedVoxelData {
    pub closed spec fn wf(&self) -> bool {
        &&& self.data.wf()
        &&& self.spatial_locks@.len() == MAX_LOD
        &&& forall|l: int|
            0 <= l < MAX_LOD ==> spatial_lock::regions_agree(#[trigger] self.spatial_locks@[l]@)
    }

    pub proof fn lemma_wf(&self)
        requires
            self.wf(),
        ensures
            self@.data.wf(),
            self@.regions.len() == MAX_LOD,
            forall|l: int|
                0 <= l < MAX_LOD ==> spatial_lock::regions_agree(#[trigger] self@.regions[l]),
    {
        self.data.lemma_wf();
        assert forall|l: int| 0 <= l < MAX_LOD implies spatial_lock::regions_agree(
            #[trigger] self@.regions[l],
        ) by {
            assert(spatial_lock::regions_agree(self.spatial_locks@[l]@));
        }
    }

    /// Shares data, as data of its own.
    pub fn new(data: VoxelData) -> (s: SharedVoxelData)
        requires
            data.wf(),
        ensures
            s.wf(),
            s@ == (SharedModel {
                data: data@,
                settings_revision: 0,
                closed: false,
                lineage: s@.lineage,
                previews: 0,
                regions: Seq::new(MAX_LOD as nat, |l: int| Seq::empty()),
            }),
    {
        let mut spatial_locks: Vec<SpatialLock3D> = Vec::new();
        let mut l: usize = 0;
        while l < MAX_LOD
            invariant
                l <= MAX_LOD,
                spatial_locks@.len() == l,
                forall|k: int|
                    0 <= k < l ==> (#[trigger] spatial_locks@[k])@ == Seq::<LockedRegion>::empty(),
            decreases MAX_LOD - l,
        {
            spatial_locks.push(SpatialLock3D::new());
            l = l + 1;
        }
        let s = SharedVoxelData {
            data,
            settings_revision: 0,
            mutation_admission_closed: false,
            lineage: DataLineage::new(),
            previews: 0,
            spatial_locks,
        };
        assert(s@.regions =~= Seq::new(MAX_LOD as nat, |l: int| Seq::empty()));
        s
    }

    pub fn block_size(&self) -> (n: u32)
        ensures
            n == voxel_data_map::BLOCK_SIZE,
    {
        VoxelDataMap::BLOCK_SIZE
    }

    pub fn block_size_po2(&self) -> (n: u8)
        ensures
            n == 4,
    {
        VoxelDataMap::BLOCK_SIZE_PO2
    }

    /// Number of levels of detail.
    pub fn lod_count(&self) -> (n: usize)
        ensures
            n == self@.data.lods.len(),
    {
        self.data.lod_count()
    }

    /// Tells this data from all other shared data.
    pub fn lineage(&self) -> (l: &DataLineage)
        ensures
            *l == self@.lineage,
    {
        &self.lineage
    }

    pub fn settings_snapshot(&self) -> (s: SharedVoxelDataSettingsSnapshot)
        ensures
            s.shows(self@),
    {
        SharedVoxelDataSettingsSnapshot {
            revision: self.settings_revision,
            format: self.data.format(),
            bounds_in_voxels: self.data.bounds(),
            full_load_completed: self.data.is_full_load_completed(),
            streaming_enabled: self.data.is_streaming_enabled(),
            generator: self.data.generator(),
            stream: self.data.stream(),
        }
    }

    /// Counts the changes of the settings.
    pub fn settings_revision(&self) -> (n: u64)
        ensures
            n == self@.settings_revision,
    {
        self.settings_revision
    }

    pub fn format(&self) -> (f: VoxelFormat)
        ensures
            f@ == self@.data.format,
    {
        self.data.format()
    }

    pub fn bounds(&self) -> (b: Box3i)
        ensures
            b == self@.data.bounds,
    {
        self.data.bounds()
    }

    pub fn generator(&self) -> (g: Option<SharedVoxelGenerator>)
        ensures
            g == self@.data.generator,
    {
        self.data.generator()
    }

    pub fn stream(&self) -> (s: Option<SharedVoxelStream>)
        ensures
            s == self@.data.stream,
    {
        self.data.stream()
    }

    /// Installs a generator. Installing the one that is there changes nothing;
    /// another one advances the settings revision.
    pub fn set_generator(&mut self, generator: Option<SharedVoxelGenerator>) -> (r: Result<
        (),
        SharedVoxelDataMutationError,
    >)
        requires
            old(self).wf(),
        ensures
            final(self).wf(),
            exists|unchanged: bool|
                #![trigger generator_outcome(old(self)@, generator, unchanged, r, final(self)@)]
                generator_outcome(old(self)@, generator, unchanged, r, final(self)@) && (unchanged
                    ==> generator == old(self)@.data.generator) && (generator is None
                    && old(self)@.data.generator is None ==> unchanged),
    {
        let current = self.data.generator();
        let unchanged = match (&current, &generator) {
            (None, None) => true,
            (Some(a), Some(b)) => same_generator(a, b),
            _ => false,
        };
        let ghost before = self@;
        let ghost wanted = generator;
        let r = self.replace_generator(generator, unchanged);
        assert(generator_outcome(before, wanted, unchanged, r, self@));
        r
    }

    /// Installs a generator, unless it is the one already there.
    pub fn replace_generator(
        &mut self,
        generator: Option<SharedVoxelGenerator>,
        unchanged: bool,
    ) -> (r: Result<(), SharedVoxelDataMutationError>)
        requires
            old(self).wf(),
        ensures
            final(self).wf(),
            generator_outcome(old(self)@, generator, unchanged, r, final(self)@),
    {
        if self.mutation_admission_closed {
            return Err(SharedVoxelDataMutationError::MutationAdmissionClosed);
        }
        if unchanged {
            return Ok(());
        }
        if self.settings_revision == u64::MAX {
            return Err(SharedVoxelDataMutationError::SettingsRevisionOverflow);
        }
        self.data.set_generator(generator);
        self.settings_revision = self.settings_revision + 1;
        assert(self@.regions =~= old(self)@.regions);
        Ok(())
    }

    /// Sets the settings revision.
    pub fn set_settings_revision(&mut self, revision: u64)
        requires
            old(self).wf(),
        ensures
            final(self).wf(),
            final(self)@ == (SharedModel { settings_revision: revision, ..old(self)@ }),
    {
        self.settings_revision = revision;
        assert(self@.regions =~= old(self)@.regions);
    }

    /// Changes are no longer admitted. Returns the right to make changes all
    /// the same.
    pub fn close_mutation_admission_for_shutdown(&mut self) -> (
        p: SharedVoxelDataShutdownMutationPermit)
        requires
            old(self).wf(),
        ensures
            final(self).wf(),
            final(self)@ == (SharedModel { closed: true, ..old(self)@ }),
            p@ == old(self)@.lineage,
    {
        self.mutation_admission_closed = true;
        assert(self@.regions =~= old(self)@.regions);
        SharedVoxelDataShutdownMutationPermit { lineage: self.lineage.clone() }
    }

    /// Checks that a permit is for this data.
    pub fn validate_shutdown_mutation_permit(
        &self,
        permit: &SharedVoxelDataShutdownMutationPermit,
    ) -> (r: Result<(), SharedVoxelDataMutationError>)
        ensures
            r is Ok <==> permit@ == self@.lineage,
            r matches Err(e) ==> e == SharedVoxelDataMutationError::ShutdownMutationPermitMismatch,
    {
        if permit.matches(&self.lineage) {
            Ok(())
        } else {
            Err(SharedVoxelDataMutationError::ShutdownMutationPermitMismatch)
        }
    }

    /// Changes are admitted again.
    pub fn reopen_mutation_admission(&mut self)
        requires
            old(self).wf(),
        ensures
            final(self).wf(),
            final(self)@ == (SharedModel { closed: false, ..old(self)@ }),
    {
        self.mutation_admission_closed = false;
        assert(self@.regions =~= old(self)@.regions);
    }

    pub fn is_mutation_admission_closed(&self) -> (b: bool)
        ensures
            b == self@.closed,
    {
        self.mutation_admission_closed
    }

    /// Takes a number that tells the next preview from all others.
    pub(crate) fn next_preview(&mut self) -> (id: u64)
        requires
            old(self).wf(),
            old(self)@.previews < u64::MAX,
        ensures
            final(self).wf(),
            final(self)@ == (SharedModel {
                previews: (old(self)@.previews + 1) as u64,
                ..old(self)@
            }),
            id == final(self)@.previews,
    {
        self.previews = self.previews + 1;
        assert(self@.regions =~= old(self)@.regions);
        self.previews
    }

    /// The revision of a block key, and whether a block is there.
    pub fn key_revision(&self, block_pos: Vector3i, lod_index: usize) -> (r: Option<
        VoxelDataKeyRevision,
    >)
        requires
            self.wf(),
        ensures
            r is Some <==> lod_index < self@.data.lods.len(),
            r matches Some(k) ==> k == self@.data.lods[lod_index as int].key_revision(block_pos),
    {
        if lod_index >= self.data.lod_count() {
            return None;
        }
        Some(revision::current_key_revision(self.data.lod(lod_index), block_pos))
    }

    /// Runs `f` on the map of a level.
    pub fn with_lod_map<R, F: FnOnce(&VoxelDataMap) -> R>(&self, lod_index: usize, f: F) -> (r: R)
        requires
            self.wf(),
            lod_index < self@.data.lods.len(),
            forall|m: &VoxelDataMap|
                m.wf() && m@ == self@.data.lods[lod_index as int] ==> #[trigger] f.requires((m,)),
        ensures
            exists|m: &VoxelDataMap|
                m@ == self@.data.lods[lod_index as int] && #[trigger] f.ensures((m,), r),
    {
        f(self.data.lod(lod_index))
    }

    /// The map of a level, held for reading.
    pub fn try_lod_map_read(&self, lod_index: usize) -> (r: Option<
        SharedVoxelDataLodReadGuard<'_>,
    >)
        requires
            self.wf(),
        ensures
            r is Some <==> lod_index < self@.data.lods.len(),
            r matches Some(m) ==> m.wf() && m@ == self@.data.lods[lod_index as int],
    {
        if lod_index >= self.data.lod_count() {
            return None;
        }
        Some(SharedVoxelDataLodReadGuard { map: self.data.lod(lod_index) })
    }

    /// The map of a level, to be changed.
    pub fn try_lod_map_write(&mut self, lod_index: usize) -> (r: Option<&mut VoxelDataMap>)
        requires
            old(self).wf(),
        ensures
            r is Some <==> lod_index < old(self)@.data.lods.len(),
            match r {
                Some(m) => {
                    &&& m.wf()
                    &&& m@ == old(self)@.data.lods[lod_index as int]
                    &&& final(self)@ == old(self)@.with_lod(lod_index as int, final(m)@)
                    &&& final(m).wf() && final(m)@.lod_index == m@.lod_index && final(m)@.format
                        == m@.format ==> final(self).wf()
                },
                None => final(self).wf() && final(self)@ == old(self)@,
            },
    {
        if lod_index >= self.data.lod_count() {
            return None;
        }
        Some(self.lod_mut(lod_index))
    }

    /// The map of a level.
    pub(crate) fn lod(&self, l: usize) -> (m: &VoxelDataMap)
        requires
            self.wf(),
            l < self@.data.lods.len(),
        ensures
            m.wf(),
            m@ == self@.data.lods[l as int],
    {
        self.data.lod(l)
    }

    /// The map of a level, to be changed.
    pub(crate) fn lod_mut(&mut self, l: usize) -> (m: &mut VoxelDataMap)
        requires
            old(self).wf(),
            l < old(self)@.data.lods.len(),
        ensures
            m.wf(),
            m@ == old(self)@.data.lods[l as int],
            final(m).wf() && final(m)@.lod_index == m@.lod_index && final(m)@.format == m@.format
                ==> final(self).wf(),
            final(self)@ == old(self)@.with_lod(l as int, final(m)@),
    {
        proof {
            self.lemma_any_data();
        }
        self.data.lod_mut(l)
    }

    /// Whatever becomes of the data, the model follows.
    proof fn lemma_any_data(&self)
        requires
            self.wf(),
        ensures
            forall|after: SharedVoxelData|
                #![trigger after.wf()]
                #![trigger after.view()]
                after.settings_revision == self.settings_revision
                    && after.mutation_admission_closed == self.mutation_admission_closed
                    && after.lineage == self.lineage && after.previews == self.previews
                    && after.spatial_locks == self.spatial_locks ==> after@ == (SharedModel {
                    data: after.data@,
                    ..self@
                }) && (after.data.wf() ==> after.wf()),
    {
        assert forall|after: SharedVoxelData|
            #![trigger after.wf()]
            #![trigger after.view()]
            after.settings_revision == self.settings_revision && after.mutation_admission_closed
                == self.mutation_admission_closed && after.lineage == self.lineage
                && after.previews == self.previews && after.spatial_locks
                == self.spatial_locks implies after@ == (SharedModel { data: after.data@, ..self@ })
            && (after.data.wf() ==> after.wf()) by {
            assert(after@.regions =~= self@.regions);
        }
    }

    /// Asks for room for more blocks and revisions at a level. Nothing changes
    /// either way. There is always room for none.
    pub fn try_reserve(&mut self, l: usize, blocks: usize, revisions: usize) -> (b: bool)
        requires
            old(self).wf(),
            l < old(self)@.data.lods.len(),
        ensures
            final(self).wf(),
            final(self)@ == old(self)@,
            blocks == 0 && revisions == 0 ==> b,
    {
        let map = self.lod_mut(l);
        let b = map.try_reserve(blocks) && map.try_reserve_key_revisions(revisions);
        proof {
            assert(self@.data.lods =~= old(self)@.data.lods);
        }
        b
    }

    /// Every block of a box is there.
    pub fn has_all_blocks_in_area(&self, blocks_box: Box3i, lod_index: usize) -> (b: bool)
        requires
            self.wf(),
            blocks_box.representable(),
        ensures
            b == (lod_index < self@.data.lods.len() && forall|p: Vector3i|
                blocks_box.has(p@) ==> #[trigger] self@.data.lods[lod_index as int].has(p)),
    {
        if lod_index >= self.data.lod_count() {
            return false;
        }
        voxel_data_map::all_blocks_present(self.data.lod(lod_index), blocks_box)
    }

    /// A copy of a block.
    pub fn block_snapshot(&self, block_pos: Vector3i, lod_index: usize) -> (r: Option<
        VoxelDataBlock,
    >)
        requires
            self.wf(),
        ensures
            r is Some <==> self@.data.has_block(block_pos, lod_index as int),
            r matches Some(b) ==> b.wf() && b@
                == self@.data.lods[lod_index as int].blocks[block_pos],
    {
        if lod_index >= self.data.lod_count() {
            return None;
        }
        match self.data.lod(lod_index).get_block(block_pos) {
            Some(block) => Some(map_areas::clone_block(block)),
            None => None,
        }
    }

    /// Number of blocks of all levels.
    pub fn block_count(&self) -> (n: usize)
        requires
            self.wf(),
            self@.data.blocks_below(self@.data.lods.len() as int) <= usize::MAX,
        ensures
            n == self@.data.blocks_below(self@.data.lods.len() as int),
    {
        self.data.block_count()
    }

    /// Begins to read a region, unless it is being written.
    pub fn try_read_region(&mut self, lod_index: usize, voxel_box: Box3i) -> (r: Option<
        LockedRegion,
    >)
        requires
            old(self).wf(),
            lod_index < MAX_LOD,
            voxel_box.end().fits(),
        ensures
            final(self).wf(),
            region_outcome(old(self)@, lod_index as int, voxel_box, false, r, final(self)@),
    {
        let bounds = BoxBounds3i::from_box(voxel_box.position, voxel_box.size);
        proof {
            self.lemma_any_locks(lod_index as int);
            assert(spatial_lock::regions_agree(self.spatial_locks@[lod_index as int]@));
            assert(self@.regions[lod_index as int] == self.spatial_locks@[lod_index as int]@);
            assert(self@.regions =~= self@.regions.update(
                lod_index as int,
                self@.regions[lod_index as int],
            ));
        }
        if self.spatial_locks[lod_index].try_lock_read(bounds) {
            Some(LockedRegion { bounds, write: false })
        } else {
            None
        }
    }

    /// Begins to write a region, unless it is in use.
    pub fn try_write_region(&mut self, lod_index: usize, voxel_box: Box3i) -> (r: Option<
        LockedRegion,
    >)
        requires
            old(self).wf(),
            lod_index < MAX_LOD,
            voxel_box.end().fits(),
        ensures
            final(self).wf(),
            region_outcome(old(self)@, lod_index as int, voxel_box, true, r, final(self)@),
    {
        let bounds = BoxBounds3i::from_box(voxel_box.position, voxel_box.size);
        proof {
            self.lemma_any_locks(lod_index as int);
            assert(spatial_lock::regions_agree(self.spatial_locks@[lod_index as int]@));
            assert(self@.regions[lod_index as int] == self.spatial_locks@[lod_index as int]@);
            assert(self@.regions =~= self@.regions.update(
                lod_index as int,
                self@.regions[lod_index as int],
            ));
        }
        if self.spatial_locks[lod_index].try_lock_write(bounds) {
            Some(LockedRegion { bounds, write: true })
        } else {
            None
        }
    }

    /// Begins to write the voxels within `bounds`, unless they are in use.
    pub(crate) fn try_lock_write(&mut self, lod_index: usize, bounds: BoxBounds3i) -> (b: bool)
        requires
            old(self).wf(),
            lod_index < MAX_LOD,
        ensures
            final(self).wf(),
            b == spatial_lock::can_write(old(self)@.regions[lod_index as int], bounds),
            final(self)@ == if b {
                old(self)@.with_region(lod_index as int, LockedRegion { bounds, write: true })
            } else {
                old(self)@
            },
    {
        proof {
            self.lemma_any_locks(lod_index as int);
            assert(spatial_lock::regions_agree(self.spatial_locks@[lod_index as int]@));
            assert(self@.regions[lod_index as int] == self.spatial_locks@[lod_index as int]@);
            assert(self@.regions =~= self@.regions.update(
                lod_index as int,
                self@.regions[lod_index as int],
            ));
        }
        self.spatial_locks[lod_index].try_lock_write(bounds)
    }

    /// The voxels within `bounds` may be written.
    pub fn allows_write(&self, lod_index: usize, bounds: BoxBounds3i) -> (b: bool)
        requires
            self.wf(),
            lod_index < MAX_LOD,
        ensures
            b == spatial_lock::can_write(self@.regions[lod_index as int], bounds),
    {
        self.spatial_locks[lod_index].allows_write(bounds)
    }

    /// Ends one use of a region.
    pub fn unlock_region(&mut self, lod_index: usize, region: LockedRegion)
        requires
            old(self).wf(),
            lod_index < MAX_LOD,
            old(self)@.regions[lod_index as int].contains(region),
        ensures
            final(self).wf(),
            exists|i: int|
                0 <= i < old(self)@.regions[lod_index as int].len()
                    && old(self)@.regions[lod_index as int][i] == region && final(self)@ == (
                SharedModel {
                    regions: old(self)@.regions.update(
                        lod_index as int,
                        #[trigger] old(self)@.regions[lod_index as int].remove(i),
                    ),
                    ..old(self)@
                }),
    {
        proof {
            self.lemma_any_locks(lod_index as int);
            assert(spatial_lock::regions_agree(self.spatial_locks@[lod_index as int]@));
            assert(self@.regions[lod_index as int] == self.spatial_locks@[lod_index as int]@);
        }
        self.spatial_locks[lod_index].unlock(region);
    }

    /// Whatever becomes of the regions of one level, the model follows.
    proof fn lemma_any_locks(&self, l: int)
        requires
            self.wf(),
            0 <= l < MAX_LOD,
        ensures
            forall|after: SharedVoxelData|
                #![trigger after.wf()]
                #![trigger after.view()]
                after.data == self.data && after.settings_revision == self.settings_revision
                    && after.mutation_admission_closed == self.mutation_admission_closed
                    && after.lineage == self.lineage && after.previews == self.previews
                    && after.spatial_locks@ == self.spatial_locks@.update(
                    l,
                    after.spatial_locks@[l],
                ) ==> after@ == (SharedModel {
                    regions: self@.regions.update(l, after.spatial_locks@[l]@),
                    ..self@
                }) && (spatial_lock::regions_agree(after.spatial_locks@[l]@) ==> after.wf()),
    {
        assert forall|after: SharedVoxelData|
            #![trigger after.wf()]
            #![trigger after.view()]
            after.data == self.data && after.settings_revision == self.settings_revision
                && after.mutation_admission_closed == self.mutation_admission_closed
                && after.lineage == self.lineage && after.previews == self.previews
                && after.spatial_locks@ == self.spatial_locks@.update(
                l,
                after.spatial_locks@[l],
            ) implies after@ == (SharedModel {
            regions: self@.regions.update(l, after.spatial_locks@[l]@),
            ..self@
        }) && (spatial_lock::regions_agree(after.spatial_locks@[l]@) ==> after.wf()) by {
            assert(after@.regions =~= self@.regions.update(l, after.spatial_locks@[l]@));
            assert forall|k: int| 0 <= k < MAX_LOD && k != l implies spatial_lock::regions_agree(
                #[trigger] after.spatial_locks@[k]@,
            ) by {
                assert(spatial_lock::regions_agree(self.spatial_locks@[k]@));
            }
        }
    }

    /// Number of regions in use at a level.
    pub fn locked_region_count(&self, lod_index: usize) -> (n: usize)
        requires
            self.wf(),
            lod_index < MAX_LOD,
        ensures
            n == self@.regions[lod_index as int].len(),
    {
        self.spatial_locks[lod_index].locked_boxes_count()
    }
}

impl SharedModel {
    /// One region more in use at level `l`.
    pub open spec fn with_region(self, l: int, region: LockedRegion) -> SharedModel {
        SharedModel { regions: self.regions.update(l, self.regions[l].push(region)), ..self }
    }
}

/// The outcome of asking for a region.
pub open spec fn region_outcome(
    before: SharedModel,
    l: int,
    voxel_box: Box3i,
    write: bool,
    r: Option<LockedRegion>,
    after: SharedModel,
) -> bool {
    let bounds = BoxBounds3i {
        min_pos: voxel_box.position,
        max_pos: Vector3i::from_cell(voxel_box.end()),
    };
    let free = if write {
        spatial_lock::can_write(before.regions[l], bounds)
    } else {
        spatial_lock::can_read(before.regions[l], bounds)
    };
    if free {
        r == Some(LockedRegion { bounds, write }) && after == before.with_region(
            l,
            LockedRegion { bounds, write },
        )
    } else {
        r is None && after == before
    }
}

} // verus!
