//! Transactions over block keys of shared voxel data: what they consist of and
//! how they are prepared.

use crate::boxes;
use crate::boxes::BoxBounds3i;
use crate::grid::Cell;
use crate::math::Vector3i;
use crate::mutation_error::SharedVoxelDataMutationError;
use crate::position_map;
use crate::revision;
use crate::revision::VoxelDataKeyRevision;
use crate::shared_data::SharedVoxelData;
use crate::shared_edits;
use crate::sorting::Keyed;
use crate::voxel_data::{BlockLocation, DataModel};
use crate::voxel_data_block::{BlockModel, VoxelDataBlock};
use crate::voxel_data_map;
use crate::voxel_data_map::BLOCK_SIZE;
use vstd::prelude::*;

verus! {

/// One operation on one block key. Every accepted operation changes its key and
/// advances its revision once.
#[derive(Debug)]
pub enum SharedVoxelDataTransactionOperation {
    SetViewersExact { location: BlockLocation, final_viewers: u32 },
    SetViewersExactAndClearModified { location: BlockLocation, final_viewers: u32 },
    Insert { location: BlockLocation, block: VoxelDataBlock, final_viewers: u32 },
    Replace { location: BlockLocation, block: VoxelDataBlock },
    ClearModified { location: BlockLocation },
    Remove { location: BlockLocation },
}

/// What an operation holds.
#[verifier::ext_equal]
pub enum OperationModel {
    SetViewersExact { location: BlockLocation, final_viewers: u32 },
    SetViewersExactAndClearModified { location: BlockLocation, final_viewers: u32 },
    Insert { location: BlockLocation, block: BlockModel, final_viewers: u32 },
    Replace { location: BlockLocation, block: BlockModel },
    ClearModified { location: BlockLocation },
    Remove { location: BlockLocation },
}

impl View for SharedVoxelDataTransactionOperation {
    type V = OperationModel;

    open spec fn view(&self) -> OperationModel {
        match self {
            SharedVoxelDataTransactionOperation::SetViewersExact { location, final_viewers } => {
                OperationModel::SetViewersExact {
                    location: *location,
                    final_viewers: *final_viewers,
                }
            },
            SharedVoxelDataTransactionOperation::SetViewersExactAndClearModified {
                location,
                final_viewers,
            } => OperationModel::SetViewersExactAndClearModified {
                location: *location,
                final_viewers: *final_viewers,
            },
            SharedVoxelDataTransactionOperation::Insert { location, block, final_viewers } => {
                OperationModel::Insert {
                    location: *location,
                    block: block@,
                    final_viewers: *final_viewers,
                }
            },
            SharedVoxelDataTransactionOperation::Replace { location, block } => {
                OperationModel::Replace { location: *location, block: block@ }
            },
            SharedVoxelDataTransactionOperation::ClearModified { location } => {
                OperationModel::ClearModified { location: *location }
            },
            SharedVoxelDataTransactionOperation::Remove { location } => {
                OperationModel::Remove { location: *location }
            },
        }
    }
}

impl OperationModel {
    /// The key that the operation is on.
    pub open spec fn place(self) -> BlockLocation {
        match self {
            OperationModel::SetViewersExact { location, .. } => location,
            OperationModel::SetViewersExactAndClearModified { location, .. } => location,
            OperationModel::Insert { location, .. } => location,
            OperationModel::Replace { location, .. } => location,
            OperationModel::ClearModified { location } => location,
            OperationModel::Remove { location } => location,
        }
    }

    /// The block that the operation brings along.
    pub open spec fn payload(self) -> Option<BlockModel> {
        match self {
            OperationModel::Insert { block, .. } => Some(block),
            OperationModel::Replace { block, .. } => Some(block),
            _ => None,
        }
    }

    /// A block leaves the data.
    pub open spec fn retires(self) -> bool {
        self is Replace || self is Remove
    }
}

impl SharedVoxelDataTransactionOperation {
    /// The block that the operation brings along is well-formed.
    pub open spec fn wf(&self) -> bool {
        match self {
            SharedVoxelDataTransactionOperation::Insert { block, .. } => block.wf(),
            SharedVoxelDataTransactionOperation::Replace { block, .. } => block.wf(),
            _ => true,
        }
    }

    /// The key that the operation is on.
    pub fn location(&self) -> (l: BlockLocation)
        ensures
            l == self@.place(),
    {
        match self {
            SharedVoxelDataTransactionOperation::SetViewersExact { location, .. } => *location,
            SharedVoxelDataTransactionOperation::SetViewersExactAndClearModified {
                location,
                ..
            } => *location,
            SharedVoxelDataTransactionOperation::Insert { location, .. } => *location,
            SharedVoxelDataTransactionOperation::Replace { location, .. } => *location,
            SharedVoxelDataTransactionOperation::ClearModified { location } => *location,
            SharedVoxelDataTransactionOperation::Remove { location } => *location,
        }
    }

    /// The block that the operation brings along.
    pub fn block(&self) -> (b: Option<&VoxelDataBlock>)
        requires
            self.wf(),
        ensures
            b is Some <==> self@.payload() is Some,
            b matches Some(b) ==> Some(b@) == self@.payload() && b.wf(),
    {
        match self {
            SharedVoxelDataTransactionOperation::Insert { block, .. } => Some(block),
            SharedVoxelDataTransactionOperation::Replace { block, .. } => Some(block),
            _ => None,
        }
    }
}

/// Locations are ordered by level, then X, then Y, then Z.
pub open spec fn location_key(l: BlockLocation) -> int {
    l.lod_index * position_map::KEY_END + position_map::packed(l.position)
}

/// The order of the keys is that of level, X, Y and Z; no two locations share a
/// key.
pub proof fn lemma_location_key(a: BlockLocation, b: BlockLocation)
    ensures
        location_key(a) == location_key(b) <==> a == b,
        location_key(a) < location_key(b) <==> a.lod_index < b.lod_index || a.lod_index
            == b.lod_index && (a.position.x < b.position.x || a.position.x == b.position.x && (
        a.position.y < b.position.y || a.position.y == b.position.y && a.position.z
            < b.position.z)),
{
    position_map::lemma_packed_order(a.position, b.position);
    position_map::lemma_packed_order(b.position, a.position);
}

/// The number by which a location is ordered.
pub fn key_of_location(l: BlockLocation) -> (k: u128)
    ensures
        k == location_key(l),
{
    l.lod_index as u128 * position_map::KEY_END + position_map::pack(l.position)
}

impl Keyed for SharedVoxelDataTransactionOperation {
    open spec fn key(&self) -> int {
        location_key(self@.place())
    }

    fn sort_key(&self) -> (k: u128) {
        key_of_location(self.location())
    }
}

/// What can be seen of a block without its voxels.
#[derive(Clone, Copy, Debug, PartialEq, Eq, Structural)]
pub struct PreparedSharedVoxelDataBlockState {
    pub viewers: u32,
    pub modified: bool,
    pub edited: bool,
    pub has_voxels: bool,
}

/// What can be seen of a block without its voxels.
pub open spec fn state_of(b: BlockModel) -> PreparedSharedVoxelDataBlockState {
    PreparedSharedVoxelDataBlockState {
        viewers: b.viewers,
        modified: b.modified,
        edited: b.edited,
        has_voxels: b.voxels is Some,
    }
}

/// What can be seen of a block without its voxels.
pub fn block_state(block: &VoxelDataBlock) -> (s: PreparedSharedVoxelDataBlockState)
    ensures
        s == state_of(block@),
{
    PreparedSharedVoxelDataBlockState {
        viewers: block.viewers(),
        modified: block.is_modified(),
        edited: block.is_edited(),
        has_voxels: block.has_voxels(),
    }
}

/// What a block key is expected to be at the time of the commit, and the
/// revision that it gets then.
#[derive(Clone, Copy, Debug, PartialEq, Eq, Structural)]
pub struct PreparedSharedVoxelDataExpectation {
    pub location: BlockLocation,
    pub expected_revision: VoxelDataKeyRevision,
    pub next_revision: u64,
    pub expected_block_state: Option<PreparedSharedVoxelDataBlockState>,
    pub bounds: BoxBounds3i,
}

/// Why an operation cannot be prepared.
pub open spec fn operation_error(d: DataModel, op: OperationModel) -> Option<
    SharedVoxelDataMutationError,
> {
    let location = op.place();
    let l = location.lod_index as int;
    let p = location.position;
    let m = d.lods[l];
    if l >= d.lods.len() {
        Some(
            SharedVoxelDataMutationError::LodDestinationUnavailable {
                position: p,
                lod_index: l as usize,
            },
        )
    } else if op.payload() matches Some(b) && b.lod_index != location.lod_index {
        Some(
            SharedVoxelDataMutationError::PreparedTransactionBlockLodMismatch {
                location,
                block_lod_index: op.payload()->0.lod_index,
            },
        )
    } else if op.payload() matches Some(b) && !voxel_data_map::block_fits(b) {
        Some(
            SharedVoxelDataMutationError::PreparedTransactionBlockSizeMismatch {
                location,
                expected_size: Vector3i::from_cell(Cell::splat(BLOCK_SIZE as int)),
                actual_size: Vector3i::from_cell(op.payload()->0.voxels->0.size),
            },
        )
    } else if !boxes::block_bounds_exist(boxes::single(p), l as nat) {
        Some(SharedVoxelDataMutationError::SpatialBoundsOverflow { lod_index: l as usize })
    } else if m.revision(p) == u64::MAX {
        Some(
            SharedVoxelDataMutationError::KeyRevisionOverflow {
                position: p,
                lod_index: l as usize,
            },
        )
    } else if op is Insert {
        if m.has(p) {
            Some(
                SharedVoxelDataMutationError::PreparedTransactionExpectedTombstone {
                    location,
                    actual_revision: m.key_revision(p),
                },
            )
        } else {
            None
        }
    } else if !m.has(p) {
        Some(
            SharedVoxelDataMutationError::PreparedTransactionExpectedPresent {
                location,
                actual_revision: m.key_revision(p),
            },
        )
    } else if changes_nothing(m.blocks[p], op) {
        Some(SharedVoxelDataMutationError::PreparedTransactionNoop { location })
    } else {
        None
    }
}

/// The operation would leave the block as it is, or finds nothing to clear.
pub open spec fn changes_nothing(b: BlockModel, op: OperationModel) -> bool {
    match op {
        OperationModel::SetViewersExact { final_viewers, .. } => b.viewers == final_viewers,
        OperationModel::SetViewersExactAndClearModified { .. } => !b.modified,
        OperationModel::ClearModified { .. } => !b.modified,
        _ => false,
    }
}

/// `operation_error` as a function of the operation.
pub open spec fn operation_errors(d: DataModel) -> spec_fn(OperationModel) -> Option<
    SharedVoxelDataMutationError,
> {
    |op: OperationModel| operation_error(d, op)
}

/// What an operation expects of its key.
pub open spec fn expectation_of(d: DataModel, op: OperationModel) ->
    PreparedSharedVoxelDataExpectation {
    let location = op.place();
    let l = location.lod_index as int;
    let p = location.position;
    let m = d.lods[l];
    PreparedSharedVoxelDataExpectation {
        location,
        expected_revision: m.key_revision(p),
        next_revision: (m.revision(p) + 1) as u64,
        expected_block_state: if op is Insert {
            None
        } else {
            Some(state_of(m.blocks[p]))
        },
        bounds: boxes::block_bounds(boxes::single(p), l as nat),
    }
}

/// What a mere observation expects of its key; the key keeps its revision.
pub open spec fn observation_of(d: DataModel, location: BlockLocation) ->
    PreparedSharedVoxelDataExpectation {
    let l = location.lod_index as int;
    let p = location.position;
    let m = d.lods[l];
    PreparedSharedVoxelDataExpectation {
        location,
        expected_revision: m.key_revision(p),
        next_revision: m.revision(p),
        expected_block_state: if m.has(p) {
            Some(state_of(m.blocks[p]))
        } else {
            None
        },
        bounds: boxes::block_bounds(boxes::single(p), l as nat),
    }
}

/// Why a key cannot be observed.
pub open spec fn observation_error(d: DataModel, location: BlockLocation) -> Option<
    SharedVoxelDataMutationError,
> {
    let l = location.lod_index as int;
    if l >= d.lods.len() {
        Some(
            SharedVoxelDataMutationError::LodDestinationUnavailable {
                position: location.position,
                lod_index: l as usize,
            },
        )
    } else if !boxes::block_bounds_exist(boxes::single(location.position), l as nat) {
        Some(SharedVoxelDataMutationError::SpatialBoundsOverflow { lod_index: l as usize })
    } else {
        None
    }
}

impl SharedVoxelData {
    /// What an operation expects of its key, or why it cannot be prepared.
    pub(crate) fn prepare_transaction_operation(
        &self,
        operation: &SharedVoxelDataTransactionOperation,
    ) -> (r: Result<PreparedSharedVoxelDataExpectation, SharedVoxelDataMutationError>)
        requires
            self.wf(),
            operation.wf(),
        ensures
            match r {
                Ok(e) => operation_error(self@.data, operation@) is None && e == expectation_of(
                    self@.data,
                    operation@,
                ),
                Err(e) => operation_error(self@.data, operation@) == Some(e),
            },
    {
        proof {
            self.lemma_wf();
        }
        let location = operation.location();
        let position = location.position;
        let lod_index: usize = location.lod_index as usize;
        if lod_index >= self.lod_count() {
            return Err(
                SharedVoxelDataMutationError::LodDestinationUnavailable { position, lod_index },
            );
        }
        match operation.block() {
            Some(block) => {
                if block.lod_index() != location.lod_index {
                    return Err(
                        SharedVoxelDataMutationError::PreparedTransactionBlockLodMismatch {
                            location,
                            block_lod_index: block.lod_index(),
                        },
                    );
                }
                if block.has_voxels() {
                    let expected_size = Vector3i::splat(BLOCK_SIZE);
                    let actual_size = block.voxels().size();
                    if actual_size != expected_size {
                        proof {
                            assert(expected_size == Vector3i::from_cell(
                                Cell::splat(BLOCK_SIZE as int),
                            ));
                            assert(actual_size == Vector3i::from_cell(actual_size@));
                            assert(actual_size@ != expected_size@);
                        }
                        return Err(
                            SharedVoxelDataMutationError::PreparedTransactionBlockSizeMismatch {
                                location,
                                expected_size,
                                actual_size,
                            },
                        );
                    }
                }
            },
            None => {},
        }
        let bounds = match boxes::checked_lod_block_bounds(
            shared_edits::single_block(position),
            lod_index,
        ) {
            Some(bounds) => bounds,
            None => {
                return Err(SharedVoxelDataMutationError::SpatialBoundsOverflow { lod_index });
            },
        };
        let map = self.lod(lod_index);
        let expected_revision = revision::current_key_revision(map, position);
        if expected_revision.value() == u64::MAX {
            return Err(SharedVoxelDataMutationError::KeyRevisionOverflow { position, lod_index });
        }
        let next_revision: u64 = expected_revision.value() + 1;
        let inserts = match operation {
            SharedVoxelDataTransactionOperation::Insert { .. } => true,
            _ => false,
        };
        let expected_block_state = match map.get_block(position) {
            Some(block) => {
                if inserts {
                    return Err(
                        SharedVoxelDataMutationError::PreparedTransactionExpectedTombstone {
                            location,
                            actual_revision: expected_revision,
                        },
                    );
                }
                let noop = match operation {
                    SharedVoxelDataTransactionOperation::SetViewersExact {
                        final_viewers,
                        ..
                    } => block.viewers() == *final_viewers,
                    SharedVoxelDataTransactionOperation::SetViewersExactAndClearModified {
                        ..
                    } => !block.is_modified(),
                    SharedVoxelDataTransactionOperation::ClearModified { .. } => {
                        !block.is_modified()
                    },
                    _ => false,
                };
                if noop {
                    return Err(SharedVoxelDataMutationError::PreparedTransactionNoop { location });
                }
                Some(block_state(block))
            },
            None => {
                if !inserts {
                    return Err(
                        SharedVoxelDataMutationError::PreparedTransactionExpectedPresent {
                            location,
                            actual_revision: expected_revision,
                        },
                    );
                }
                None
            },
        };
        Ok(
            PreparedSharedVoxelDataExpectation {
                location,
                expected_revision,
                next_revision,
                expected_block_state,
                bounds,
            },
        )
    }

    /// What an observation expects of its key, or why the key cannot be
    /// observed.
    pub(crate) fn prepare_transaction_observation(&self, location: BlockLocation) -> (r: Result<
        PreparedSharedVoxelDataExpectation,
        SharedVoxelDataMutationError,
    >)
        requires
            self.wf(),
        ensures
            match r {
                Ok(e) => observation_error(self@.data, location) is None && e == observation_of(
                    self@.data,
                    location,
                ),
                Err(e) => observation_error(self@.data, location) == Some(e),
            },
    {
        proof {
            self.lemma_wf();
        }
        let position = location.position;
        let lod_index: usize = location.lod_index as usize;
        if lod_index >= self.lod_count() {
            return Err(
                SharedVoxelDataMutationError::LodDestinationUnavailable { position, lod_index },
            );
        }
        let bounds = match boxes::checked_lod_block_bounds(
            shared_edits::single_block(position),
            lod_index,
        ) {
            Some(bounds) => bounds,
            None => {
                return Err(SharedVoxelDataMutationError::SpatialBoundsOverflow { lod_index });
            },
        };
        let map = self.lod(lod_index);
        let expected_revision = revision::current_key_revision(map, position);
        let expected_block_state = match map.get_block(position) {
            Some(block) => Some(block_state(block)),
            None => None,
        };
        Ok(
            PreparedSharedVoxelDataExpectation {
                location,
                expected_revision,
                next_revision: expected_revision.value(),
                expected_block_state,
                bounds,
            },
        )
    }
}

} // verus!
