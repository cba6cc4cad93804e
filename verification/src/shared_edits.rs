//! Setting voxels and blocks of shared voxel data.

use crate::boxes;
use crate::buffer_model::BufferModel;
use crate::channel::MAX_CHANNELS;
use crate::collections;
use crate::grid::Cell;
use crate::map_paste;
use crate::math::Vector3i;
use crate::mutation_error::SharedVoxelDataMutationError;
use crate::revision;
use crate::revision::VoxelDataKeyRevision;
use crate::shared_data::{SharedModel, SharedVoxelData};
use crate::voxel_buffer::VoxelBuffer;
use crate::voxel_data_block::{BlockModel, VoxelDataBlock};
use crate::voxel_data_lods;
use crate::voxel_data_map;
use crate::voxel_data_map::{MapModel, VoxelDataMap, BLOCK_SIZE};
use vstd::prelude::*;

verus! {

/// What is known of a block when a voxel of it is about to be set.
#[derive(Clone, Copy, Debug, PartialEq, Eq, Structural)]
pub struct EditStart {
    pub settings_revision: u64,
    pub key_revision: VoxelDataKeyRevision,
    /// New voxels have to be brought along.
    pub needs_voxels: bool,
}

/// Where an edit of voxel `pos` starts from, if it is allowed: the voxel is in
/// bounds, and its block has voxels or may be made.
pub open spec fn edit_start(s: SharedModel, pos: Vector3i) -> Option<EditStart> {
    let p = voxel_data_map::block_of(pos);
    let m = s.data.lods[0];
    if !s.data.bounds.has(pos@) || !m.has_voxels(p) && !s.may_materialize() {
        None
    } else {
        Some(
            EditStart {
                settings_revision: s.settings_revision,
                key_revision: m.key_revision(p),
                needs_voxels: !m.has_voxels(p),
            },
        )
    }
}

/// Where setting voxel `pos` directly starts from, if it is allowed: the voxel
/// is in bounds, and its block is there or may be made.
pub open spec fn set_start(s: SharedModel, pos: Vector3i) -> Option<EditStart> {
    let p = voxel_data_map::block_of(pos);
    let m = s.data.lods[0];
    if !s.data.bounds.has(pos@) || !m.has(p) && !s.may_materialize() {
        None
    } else {
        Some(
            EditStart {
                settings_revision: s.settings_revision,
                key_revision: m.key_revision(p),
                needs_voxels: !m.has_voxels(p),
            },
        )
    }
}

/// The block of voxel `pos` covers voxels that all have positions.
pub open spec fn edit_bounds_exist(pos: Vector3i) -> bool {
    boxes::block_bounds_exist(boxes::single(voxel_data_map::block_of(pos)), 0)
}

/// Why a voxel cannot be set, where the block was as `start` says when the
/// edit was begun and `prepared` are the voxels brought along.
pub open spec fn set_refusal(
    s: SharedModel,
    start: EditStart,
    prepared: Option<BufferModel>,
    pos: Vector3i,
) -> Option<SharedVoxelDataMutationError> {
    let p = voxel_data_map::block_of(pos);
    let actual = s.data.lods[0].key_revision(p);
    let conflict = SharedVoxelDataMutationError::ConcurrentDataMutation {
        position: p,
        lod_index: 0,
        expected_revision: start.key_revision,
        actual_revision: actual,
    };
    if s.closed {
        Some(SharedVoxelDataMutationError::MutationAdmissionClosed)
    } else if s.settings_revision != start.settings_revision {
        Some(
            SharedVoxelDataMutationError::ConcurrentSettingsMutation {
                expected_revision: start.settings_revision,
                actual_revision: s.settings_revision,
            },
        )
    } else if actual != start.key_revision {
        Some(conflict)
    } else if actual.number() == u64::MAX {
        Some(SharedVoxelDataMutationError::KeyRevisionOverflow { position: p, lod_index: 0 })
    } else if !s.data.lods[0].has_voxels(p) && prepared is None {
        Some(conflict)
    } else {
        None
    }
}

/// `set_refusal`, with the place in which an edit checks that the voxels of
/// the block have positions.
pub open spec fn edit_refusal(
    s: SharedModel,
    start: EditStart,
    prepared: Option<BufferModel>,
    pos: Vector3i,
) -> Option<SharedVoxelDataMutationError> {
    if !s.closed && s.settings_revision == start.settings_revision && !edit_bounds_exist(pos) {
        Some(SharedVoxelDataMutationError::SpatialBoundsOverflow { lod_index: 0 })
    } else {
        set_refusal(s, start, prepared, pos)
    }
}

/// The map of the finest level after voxel `pos` has been set: its block gets
/// the prepared voxels if it has none, and one revision more.
pub open spec fn voxel_put(
    m: MapModel,
    prepared: Option<BufferModel>,
    pos: Vector3i,
    c: int,
    value: u64,
) -> MapModel {
    let p = voxel_data_map::block_of(pos);
    let made = if m.has_voxels(p) {
        m
    } else {
        m.with_buffer(p, prepared->0)
    };
    made.voxel_set(pos, c, value).with_revision(p, (m.revision(p) + 1) as u64)
}

/// `voxel_put`, with the block marked as modified and edited.
pub open spec fn voxel_edited(
    m: MapModel,
    prepared: Option<BufferModel>,
    pos: Vector3i,
    c: int,
    value: u64,
) -> MapModel {
    let p = voxel_data_map::block_of(pos);
    let after = voxel_put(m, prepared, pos, c, value);
    after.with_block(p, BlockModel { modified: true, edited: true, ..after.blocks[p] })
}

/// The outcome of a change that is either refused, fails for want of memory, or
/// is made.
pub open spec fn change_outcome<T>(
    before: SharedModel,
    refusal: Option<SharedVoxelDataMutationError>,
    reserved: bool,
    made: SharedModel,
    value: T,
    r: Result<T, SharedVoxelDataMutationError>,
    after: SharedModel,
) -> bool {
    match refusal {
        Some(e) => r == Err::<T, _>(e) && after == before,
        None => if reserved {
            r == Ok::<T, SharedVoxelDataMutationError>(value) && after == made
        } else {
            r == Err::<T, _>(SharedVoxelDataMutationError::CapacityReservationFailed) && after
                == before
        },
    }
}

/// The conflict that a change meets, if it is at level `l`.
pub open spec fn at_level<T>(
    level: spec_fn(T) -> int,
    conflict: spec_fn(T) -> Option<SharedVoxelDataMutationError>,
    l: int,
) -> spec_fn(T) -> Option<SharedVoxelDataMutationError> {
    |c: T|
        if level(c) == l {
            conflict(c)
        } else {
            None
        }
}

/// The first conflict that the changes of level `l` meet.
pub open spec fn level_conflict<T>(
    changes: Seq<T>,
    level: spec_fn(T) -> int,
    conflict: spec_fn(T) -> Option<SharedVoxelDataMutationError>,
    l: int,
) -> Option<SharedVoxelDataMutationError> {
    collections::first_some(changes, at_level(level, conflict, l))
}

/// There is a change at level `l`.
pub open spec fn changes_level<T>(changes: Seq<T>, level: spec_fn(T) -> int, l: int) -> bool {
    exists|k: int| 0 <= k < changes.len() && level(#[trigger] changes[k]) == l
}

/// Why changes cannot be made at the first `n` levels. It goes level by level:
/// first a change may meet a conflict, then there may be no room for the changes
/// of the level; `short` is the level without room.
pub open spec fn refusal_below<T>(
    changes: Seq<T>,
    level: spec_fn(T) -> int,
    conflict: spec_fn(T) -> Option<SharedVoxelDataMutationError>,
    short: Option<usize>,
    n: int,
) -> Option<SharedVoxelDataMutationError>
    decreases n,
{
    if n <= 0 {
        None
    } else {
        match refusal_below(changes, level, conflict, short, n - 1) {
            Some(e) => Some(e),
            None => match level_conflict(changes, level, conflict, n - 1) {
                Some(e) => Some(e),
                None => if short == Some((n - 1) as usize) && changes_level(
                    changes,
                    level,
                    n - 1,
                ) {
                    Some(SharedVoxelDataMutationError::CapacityReservationFailed)
                } else {
                    None
                },
            },
        }
    }
}

/// What ends the first `i` levels ends them all.
pub proof fn lemma_refusal_stays<T>(
    changes: Seq<T>,
    level: spec_fn(T) -> int,
    conflict: spec_fn(T) -> Option<SharedVoxelDataMutationError>,
    short: Option<usize>,
    i: int,
    n: int,
)
    requires
        i <= n,
        refusal_below(changes, level, conflict, short, i) is Some,
    ensures
        refusal_below(changes, level, conflict, short, n) == refusal_below(
            changes,
            level,
            conflict,
            short,
            i,
        ),
    decreases n - i,
{
    if i < n {
        lemma_refusal_stays(changes, level, conflict, short, i, n - 1);
    }
}

/// Where nothing is refused, no change meets a conflict.
pub proof fn lemma_not_refused<T>(
    changes: Seq<T>,
    level: spec_fn(T) -> int,
    conflict: spec_fn(T) -> Option<SharedVoxelDataMutationError>,
    short: Option<usize>,
    n: int,
    k: int,
)
    requires
        refusal_below(changes, level, conflict, short, n) is None,
        0 <= k < changes.len(),
        0 <= level(changes[k]) < n,
    ensures
        conflict(changes[k]) is None,
    decreases n,
{
    if level(changes[k]) == n - 1 {
        let here = at_level(level, conflict, n - 1);
        collections::lemma_first_some_facts(changes, here);
        assert(here(changes[k]) is None);
    } else {
        lemma_not_refused(changes, level, conflict, short, n - 1, k);
    }
}

/// Where no change meets a conflict, only a lack of room can be in the way.
pub proof fn lemma_refused_for_room<T>(
    changes: Seq<T>,
    level: spec_fn(T) -> int,
    conflict: spec_fn(T) -> Option<SharedVoxelDataMutationError>,
    short: Option<usize>,
    n: int,
)
    requires
        0 <= n <= usize::MAX,
        forall|k: int| 0 <= k < changes.len() ==> conflict(#[trigger] changes[k]) is None,
    ensures
        refusal_below(changes, level, conflict, short, n) == if short is Some && short->0 < n
            && changes_level(changes, level, short->0 as int) {
            Some(SharedVoxelDataMutationError::CapacityReservationFailed)
        } else {
            None
        },
    decreases n,
{
    if n > 0 {
        lemma_refused_for_room(changes, level, conflict, short, n - 1);
        let here = at_level(level, conflict, n - 1);
        collections::lemma_first_some_facts(changes, here);
        assert forall|k: int| 0 <= k < changes.len() implies here(#[trigger] changes[k]) is None by {
            assert(conflict(changes[k]) is None);
        }
    }
}

/// Prepared voxels fit a block.
pub open spec fn prepared_fits(prepared: Option<VoxelBuffer>) -> bool {
    prepared matches Some(v) ==> v.wf() && v@.size == Cell::splat(BLOCK_SIZE as int)
}

/// What optional voxels hold.
pub open spec fn prepared_model(prepared: Option<VoxelBuffer>) -> Option<BufferModel> {
    match prepared {
        Some(v) => Some(v@),
        None => None,
    }
}

/// The outcome of an edit as a whole: out of bounds or not allowed, it does
/// nothing; otherwise new voxels, where they are needed, are generated.
pub open spec fn edit_outcome(
    before: SharedModel,
    value: u64,
    pos: Vector3i,
    channel_index: usize,
    made: Option<BufferModel>,
    reserved: bool,
    r: Result<bool, SharedVoxelDataMutationError>,
    after: SharedModel,
) -> bool {
    if channel_index >= MAX_CHANNELS {
        r == Err::<bool, _>(SharedVoxelDataMutationError::InvalidChannel { channel_index })
            && after == before
    } else {
        match edit_start(before, pos) {
            None => r == Ok::<bool, SharedVoxelDataMutationError>(false) && after == before,
            Some(start) => {
                &&& start.needs_voxels <==> made is Some
                &&& made matches Some(b) ==> voxel_data_lods::generated_for(
                    before.data.generator,
                    before.data.format,
                    voxel_data_map::block_of(pos),
                    0,
                    b,
                )
                &&& change_outcome(
                    before,
                    edit_refusal(before, start, made, pos),
                    reserved,
                    before.with_lod(
                        0,
                        voxel_edited(
                            before.data.lods[0],
                            made,
                            pos,
                            channel_index as int,
                            value,
                        ),
                    ),
                    true,
                    r,
                    after,
                )
            },
        }
    }
}

/// The outcome of setting a voxel directly: new voxels, where they are needed,
/// are empty ones.
pub open spec fn set_outcome(
    before: SharedModel,
    value: u64,
    pos: Vector3i,
    channel_index: usize,
    reserved: bool,
    r: Result<bool, SharedVoxelDataMutationError>,
    after: SharedModel,
) -> bool {
    if channel_index >= MAX_CHANNELS {
        r == Err::<bool, _>(SharedVoxelDataMutationError::InvalidChannel { channel_index })
            && after == before
    } else {
        match set_start(before, pos) {
            None => r == Ok::<bool, SharedVoxelDataMutationError>(false) && after == before,
            Some(start) => {
                let made = if start.needs_voxels {
                    Some(voxel_data_map::block_buffer(before.data.format))
                } else {
                    None
                };
                change_outcome(
                    before,
                    if edit_bounds_exist(pos) {
                        set_refusal(before, start, made, pos)
                    } else {
                        Some(SharedVoxelDataMutationError::SpatialBoundsOverflow { lod_index: 0 })
                    },
                    reserved,
                    before.with_lod(
                        0,
                        voxel_put(before.data.lods[0], made, pos, channel_index as int, value),
                    ),
                    true,
                    r,
                    after,
                )
            },
        }
    }
}

/// The outcome of putting in a block: one that is there stays.
pub open spec fn insert_outcome(
    before: SharedModel,
    p: Vector3i,
    block: BlockModel,
    reserved: bool,
    r: Result<bool, SharedVoxelDataMutationError>,
    after: SharedModel,
) -> bool {
    let l = block.lod_index as int;
    let m = before.data.lods[l];
    let lod_index = block.lod_index as usize;
    if before.closed {
        r == Err::<bool, _>(SharedVoxelDataMutationError::MutationAdmissionClosed) && after
            == before
    } else if !boxes::block_bounds_exist(boxes::single(p), l as nat) {
        r == Err::<bool, _>(SharedVoxelDataMutationError::SpatialBoundsOverflow { lod_index })
            && after == before
    } else if m.has(p) {
        r == Ok::<bool, SharedVoxelDataMutationError>(false) && after == before
    } else {
        change_outcome(
            before,
            if m.revision(p) == u64::MAX {
                Some(SharedVoxelDataMutationError::KeyRevisionOverflow { position: p, lod_index })
            } else {
                None
            },
            reserved,
            before.with_lod(
                l,
                m.with_block(p, block).with_revision(p, (m.revision(p) + 1) as u64),
            ),
            true,
            r,
            after,
        )
    }
}

impl SharedVoxelData {
    /// Puts in a block, unless one is there.
    pub fn try_set_block(&mut self, block_pos: Vector3i, block: VoxelDataBlock) -> (r: Result<
        bool,
        SharedVoxelDataMutationError,
    >)
        requires
            old(self).wf(),
            block.wf(),
            block@.lod_index < old(self)@.data.lods.len(),
            voxel_data_map::block_fits(block@),
        ensures
            final(self).wf(),
            exists|reserved: bool| #[trigger]
                insert_outcome(old(self)@, block_pos, block@, reserved, r, final(self)@),
    {
        let ghost before = self@;
        let ghost b = block@;
        let reserved = self.try_reserve(block.lod_index() as usize, 1, 1);
        let r = self.insert_block(block_pos, block, reserved);
        assert(insert_outcome(before, block_pos, b, reserved, r, self@));
        r
    }

    /// `try_set_block`, where `reserved` says whether there is room.
    pub fn insert_block(
        &mut self,
        block_pos: Vector3i,
        block: VoxelDataBlock,
        reserved: bool,
    ) -> (r: Result<bool, SharedVoxelDataMutationError>)
        requires
            old(self).wf(),
            block.wf(),
            block@.lod_index < old(self)@.data.lods.len(),
            voxel_data_map::block_fits(block@),
        ensures
            final(self).wf(),
            insert_outcome(old(self)@, block_pos, block@, reserved, r, final(self)@),
    {
        proof {
            self.lemma_wf();
        }
        let lod_index: usize = block.lod_index() as usize;
        if self.is_mutation_admission_closed() {
            return Err(SharedVoxelDataMutationError::MutationAdmissionClosed);
        }
        if boxes::checked_lod_block_bounds(single_block(block_pos), lod_index).is_none() {
            return Err(SharedVoxelDataMutationError::SpatialBoundsOverflow { lod_index });
        }
        if self.lod(lod_index).has_block(block_pos) {
            return Ok(false);
        }
        let revision: u64 = self.lod(lod_index).key_revision(block_pos);
        if revision == u64::MAX {
            return Err(
                SharedVoxelDataMutationError::KeyRevisionOverflow {
                    position: block_pos,
                    lod_index,
                },
            );
        }
        if !reserved {
            return Err(SharedVoxelDataMutationError::CapacityReservationFailed);
        }
        let map = self.lod_mut(lod_index);
        map.set_block(block_pos, block, false);
        map.commit_key_revision(block_pos, revision + 1);
        Ok(true)
    }

    /// Where an edit of a voxel starts from, if it is allowed.
    pub fn start_edit(&self, pos: Vector3i) -> (r: Option<EditStart>)
        requires
            self.wf(),
        ensures
            r == edit_start(self@, pos),
    {
        proof {
            self.lemma_wf();
            voxel_data_map::lemma_local(pos);
        }
        if !self.bounds().contains_point(pos) {
            return None;
        }
        let p = VoxelDataMap::voxel_to_block(pos);
        let settings = self.settings_snapshot();
        let map = self.lod(0);
        let needs_voxels = match map.get_block(p) {
            Some(block) => !block.has_voxels(),
            None => true,
        };
        if needs_voxels && (settings.streaming_enabled || !settings.full_load_completed) {
            return None;
        }
        Some(
            EditStart {
                settings_revision: settings.revision,
                key_revision: revision::current_key_revision(map, p),
                needs_voxels,
            },
        )
    }

    /// Where setting a voxel directly starts from, if it is allowed.
    pub fn start_set(&self, pos: Vector3i) -> (r: Option<EditStart>)
        requires
            self.wf(),
        ensures
            r == set_start(self@, pos),
    {
        proof {
            self.lemma_wf();
            voxel_data_map::lemma_local(pos);
        }
        if !self.bounds().contains_point(pos) {
            return None;
        }
        let p = VoxelDataMap::voxel_to_block(pos);
        let settings = self.settings_snapshot();
        let map = self.lod(0);
        let (there, needs_voxels) = match map.get_block(p) {
            Some(block) => (true, !block.has_voxels()),
            None => (false, true),
        };
        if !there && (settings.streaming_enabled || !settings.full_load_completed) {
            return None;
        }
        Some(
            EditStart {
                settings_revision: settings.revision,
                key_revision: revision::current_key_revision(map, p),
                needs_voxels,
            },
        )
    }

    /// Edits a voxel of a block that may have changed since the edit was
    /// begun; `prepared` are new voxels in case the block has none, and
    /// `reserved` says whether there is room.
    pub fn commit_edit_voxel(
        &mut self,
        start: EditStart,
        prepared: Option<VoxelBuffer>,
        value: u64,
        pos: Vector3i,
        channel_index: usize,
        reserved: bool,
    ) -> (r: Result<(), SharedVoxelDataMutationError>)
        requires
            old(self).wf(),
            channel_index < MAX_CHANNELS,
            prepared_fits(prepared),
        ensures
            final(self).wf(),
            change_outcome(
                old(self)@,
                edit_refusal(old(self)@, start, prepared_model(prepared), pos),
                reserved,
                old(self)@.with_lod(
                    0,
                    voxel_edited(
                        old(self)@.data.lods[0],
                        prepared_model(prepared),
                        pos,
                        channel_index as int,
                        value,
                    ),
                ),
                (),
                r,
                final(self)@,
            ),
    {
        proof {
            self.lemma_wf();
            voxel_data_map::lemma_local(pos);
        }
        if !self.is_mutation_admission_closed() && self.settings_revision()
            == start.settings_revision && !bounds_exist(pos) {
            return Err(SharedVoxelDataMutationError::SpatialBoundsOverflow { lod_index: 0 });
        }
        match self.refuse_set(start, prepared.is_some(), pos) {
            Some(e) => {
                return Err(e);
            },
            None => {},
        }
        if !reserved {
            return Err(SharedVoxelDataMutationError::CapacityReservationFailed);
        }
        let ghost m = self@.data.lods[0];
        let ghost made = prepared_model(prepared);
        self.put_voxel(prepared, value, pos, channel_index);
        let p = VoxelDataMap::voxel_to_block(pos);
        let map = self.lod_mut(0);
        match map.get_block_mut(p) {
            Some(block) => {
                block.set_modified(true);
                block.set_edited(true);
            },
            None => {},
        }
        proof {
            let target = voxel_edited(m, made, pos, channel_index as int, value);
            assert(self@.data.lods[0] == target);
            assert(self@.data.lods =~= old(self)@.data.lods.update(0, target));
        }
        Ok(())
    }

    /// `commit_edit_voxel`, without marking the block.
    pub fn commit_set_voxel(
        &mut self,
        start: EditStart,
        prepared: Option<VoxelBuffer>,
        value: u64,
        pos: Vector3i,
        channel_index: usize,
        reserved: bool,
    ) -> (r: Result<(), SharedVoxelDataMutationError>)
        requires
            old(self).wf(),
            channel_index < MAX_CHANNELS,
            prepared_fits(prepared),
        ensures
            final(self).wf(),
            change_outcome(
                old(self)@,
                set_refusal(old(self)@, start, prepared_model(prepared), pos),
                reserved,
                old(self)@.with_lod(
                    0,
                    voxel_put(
                        old(self)@.data.lods[0],
                        prepared_model(prepared),
                        pos,
                        channel_index as int,
                        value,
                    ),
                ),
                (),
                r,
                final(self)@,
            ),
    {
        proof {
            self.lemma_wf();
        }
        match self.refuse_set(start, prepared.is_some(), pos) {
            Some(e) => {
                return Err(e);
            },
            None => {},
        }
        if !reserved {
            return Err(SharedVoxelDataMutationError::CapacityReservationFailed);
        }
        self.put_voxel(prepared, value, pos, channel_index);
        Ok(())
    }

    /// Why a voxel cannot be set.
    fn refuse_set(&self, start: EditStart, prepared: bool, pos: Vector3i) -> (r: Option<
        SharedVoxelDataMutationError,
    >)
        requires
            self.wf(),
        ensures
            forall|made: Option<BufferModel>|
                made is Some == prepared ==> r == #[trigger] set_refusal(self@, start, made, pos),
    {
        proof {
            self.lemma_wf();
            voxel_data_map::lemma_local(pos);
        }
        if self.is_mutation_admission_closed() {
            return Some(SharedVoxelDataMutationError::MutationAdmissionClosed);
        }
        let settings_revision: u64 = self.settings_revision();
        if settings_revision != start.settings_revision {
            return Some(
                SharedVoxelDataMutationError::ConcurrentSettingsMutation {
                    expected_revision: start.settings_revision,
                    actual_revision: settings_revision,
                },
            );
        }
        let p = VoxelDataMap::voxel_to_block(pos);
        let map = self.lod(0);
        let actual = revision::current_key_revision(map, p);
        if actual != start.key_revision {
            return Some(
                SharedVoxelDataMutationError::ConcurrentDataMutation {
                    position: p,
                    lod_index: 0,
                    expected_revision: start.key_revision,
                    actual_revision: actual,
                },
            );
        }
        if actual.value() == u64::MAX {
            return Some(
                SharedVoxelDataMutationError::KeyRevisionOverflow { position: p, lod_index: 0 },
            );
        }
        let needs_voxels = match map.get_block(p) {
            Some(block) => !block.has_voxels(),
            None => true,
        };
        if needs_voxels && !prepared {
            return Some(
                SharedVoxelDataMutationError::ConcurrentDataMutation {
                    position: p,
                    lod_index: 0,
                    expected_revision: start.key_revision,
                    actual_revision: actual,
                },
            );
        }
        None
    }

    /// Sets a voxel, once nothing speaks against it.
    fn put_voxel(
        &mut self,
        prepared: Option<VoxelBuffer>,
        value: u64,
        pos: Vector3i,
        channel_index: usize,
    )
        requires
            old(self).wf(),
            channel_index < MAX_CHANNELS,
            prepared_fits(prepared),
            old(self)@.data.lods[0].has_voxels(voxel_data_map::block_of(pos)) || prepared is Some,
            old(self)@.data.lods[0].revision(voxel_data_map::block_of(pos)) < u64::MAX,
        ensures
            final(self).wf(),
            final(self)@ == old(self)@.with_lod(
                0,
                voxel_put(
                    old(self)@.data.lods[0],
                    prepared_model(prepared),
                    pos,
                    channel_index as int,
                    value,
                ),
            ),
    {
        proof {
            self.lemma_wf();
            voxel_data_map::lemma_local(pos);
        }
        let p = VoxelDataMap::voxel_to_block(pos);
        let map = self.lod_mut(0);
        let next: u64 = map.key_revision(p) + 1;
        let needs_voxels = match map.get_block(p) {
            Some(block) => !block.has_voxels(),
            None => true,
        };
        if needs_voxels {
            match prepared {
                Some(voxels) => {
                    map.set_block_buffer(p, voxels, true);
                },
                None => {},
            }
        }
        map.set_voxel(value, pos, channel_index);
        map.commit_key_revision(p, next);
    }

    /// Edits a voxel and marks its block as modified and edited. A missing
    /// block is generated if data is not streamed and all of it has been
    /// loaded. Returns whether the edit was allowed.
    pub fn try_edit_voxel_checked(
        &mut self,
        value: u64,
        pos: Vector3i,
        channel_index: usize,
    ) -> (r: Result<bool, SharedVoxelDataMutationError>)
        requires
            old(self).wf(),
        ensures
            final(self).wf(),
            exists|made: Option<BufferModel>, reserved: bool| #[trigger]
                edit_outcome(
                    old(self)@,
                    value,
                    pos,
                    channel_index,
                    made,
                    reserved,
                    r,
                    final(self)@,
                ),
    {
        let ghost before = self@;
        let ghost mut made: Option<BufferModel> = None;
        proof {
            self.lemma_wf();
            voxel_data_map::lemma_local(pos);
        }
        if channel_index >= MAX_CHANNELS {
            let r = Err(SharedVoxelDataMutationError::InvalidChannel { channel_index });
            assert(edit_outcome(before, value, pos, channel_index, made, true, r, self@));
            return r;
        }
        let start = match self.start_edit(pos) {
            Some(start) => start,
            None => {
                let r = Ok(false);
                assert(edit_outcome(before, value, pos, channel_index, made, true, r, self@));
                return r;
            },
        };
        let p = VoxelDataMap::voxel_to_block(pos);
        let prepared = if start.needs_voxels {
            proof {
                lemma_origin_of_voxel(pos);
            }
            let generator = self.generator();
            let format = self.format();
            Some(voxel_data_lods::generate_block_voxels(&generator, format, p, 0))
        } else {
            None
        };
        proof {
            made = prepared_model(prepared);
        }
        let reserved = self.try_reserve(0, 1, 1);
        match self.commit_edit_voxel(start, prepared, value, pos, channel_index, reserved) {
            Ok(_) => {
                let r = Ok(true);
                assert(edit_outcome(before, value, pos, channel_index, made, reserved, r, self@));
                r
            },
            Err(e) => {
                let r = Err(e);
                assert(edit_outcome(before, value, pos, channel_index, made, reserved, r, self@));
                r
            },
        }
    }

    /// Sets a voxel without marking its block. A missing block is made empty if
    /// data is not streamed and all of it has been loaded. Returns whether that
    /// was allowed.
    pub fn try_set_voxel_checked(
        &mut self,
        value: u64,
        pos: Vector3i,
        channel_index: usize,
    ) -> (r: Result<bool, SharedVoxelDataMutationError>)
        requires
            old(self).wf(),
        ensures
            final(self).wf(),
            exists|reserved: bool| #[trigger]
                set_outcome(
                    old(self)@,
                    value,
                    pos,
                    channel_index,
                    reserved,
                    r,
                    final(self)@,
                ),
    {
        let ghost before = self@;
        let reserved = self.try_reserve_block();
        let r = self.set_voxel_reserved(value, pos, channel_index, reserved);
        assert(set_outcome(before, value, pos, channel_index, reserved, r, self@));
        r
    }

    /// Room for one block more at the finest level.
    fn try_reserve_block(&mut self) -> (reserved: bool)
        requires
            old(self).wf(),
        ensures
            final(self).wf(),
            final(self)@ == old(self)@,
    {
        proof {
            self.lemma_wf();
        }
        self.try_reserve(0, 1, 1)
    }

    /// `try_set_voxel_checked`, where `reserved` says whether there is room.
    pub fn set_voxel_reserved(
        &mut self,
        value: u64,
        pos: Vector3i,
        channel_index: usize,
        reserved: bool,
    ) -> (r: Result<bool, SharedVoxelDataMutationError>)
        requires
            old(self).wf(),
        ensures
            final(self).wf(),
            set_outcome(old(self)@, value, pos, channel_index, reserved, r, final(self)@),
    {
        proof {
            self.lemma_wf();
        }
        if channel_index >= MAX_CHANNELS {
            return Err(SharedVoxelDataMutationError::InvalidChannel { channel_index });
        }
        let start = match self.start_set(pos) {
            Some(start) => start,
            None => {
                return Ok(false);
            },
        };
        if !bounds_exist(pos) {
            return Err(SharedVoxelDataMutationError::SpatialBoundsOverflow { lod_index: 0 });
        }
        let prepared = if start.needs_voxels {
            let format = self.format();
            proof {
                voxel_data_map::lemma_block_buffer(format@);
            }
            Some(map_paste::new_block_buffer(format))
        } else {
            None
        };
        match self.commit_set_voxel(start, prepared, value, pos, channel_index, reserved) {
            Ok(_) => Ok(true),
            Err(e) => Err(e),
        }
    }
}

/// The box that holds one block.
pub(crate) fn single_block(p: Vector3i) -> (b: boxes::Box3i)
    ensures
        b == boxes::single(p),
{
    boxes::Box3i { position: p, size: Vector3i { x: 1, y: 1, z: 1 } }
}

/// The block of voxel `pos` covers voxels that all have positions.
fn bounds_exist(pos: Vector3i) -> (b: bool)
    ensures
        b == edit_bounds_exist(pos),
{
    proof {
        voxel_data_map::lemma_local(pos);
    }
    let p = VoxelDataMap::voxel_to_block(pos);
    boxes::checked_lod_block_bounds(single_block(p), 0).is_some()
}

/// The first voxel of the block of a voxel has a position.
proof fn lemma_origin_of_voxel(pos: Vector3i)
    ensures
        voxel_data_lods::block_origin(voxel_data_map::block_of(pos), 0).fits(),
{
    voxel_data_map::lemma_local(pos);
    assert(boxes::stride_of(0) == 16);
}

} // verus!
