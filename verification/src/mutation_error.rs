//! Why a change of shared voxel data is refused.

use crate::math::Vector3i;
use crate::revision::VoxelDataKeyRevision;
use crate::voxel_data::BlockLocation;
use vstd::prelude::*;

verus! {

/// What a prepared transaction reserves memory for.
#[derive(Clone, Copy, Debug, PartialEq, Eq, Structural)]
pub enum SharedVoxelDataTransactionReservation {
    OperationStorage,
    SpatialPreparation,
    LiveMap,
    LiveKeyRevisions,
    RemovedOutcome,
    LiveSpatialRegistry,
    PreviewSnapshotStorage,
    ObservationStorage,
    ResidentDirtyPayloadStorage,
    ResidentDirtyPayloadCopy,
}

/// Why a change of shared voxel data is refused. A refused change leaves the
/// data as it was.
#[allow(inconsistent_fields)]
#[derive(Clone, Copy, Debug, PartialEq, Eq, Structural)]
pub enum SharedVoxelDataMutationError {
    /// The owner is shutting down: the data can be read, but no longer changed.
    MutationAdmissionClosed,
    ShutdownMutationPermitMismatch,
    InvalidChannel { channel_index: usize },
    SettingsRevisionOverflow,
    ConcurrentSettingsMutation { expected_revision: u64, actual_revision: u64 },
    ConcurrentDataMutation {
        position: Vector3i,
        lod_index: usize,
        expected_revision: VoxelDataKeyRevision,
        actual_revision: VoxelDataKeyRevision,
    },
    SpatialBoundsOverflow { lod_index: usize },
    LodDestinationUnavailable { position: Vector3i, lod_index: usize },
    ViewerCountOverflow { position: Vector3i, lod_index: usize },
    ViewerCountUnderflow { position: Vector3i, lod_index: usize },
    KeyRevisionOverflow { position: Vector3i, lod_index: usize },
    DirtyBlockMissingVoxels { location: BlockLocation },
    DuplicatePreparedTransactionOperation { location: BlockLocation },
    PreparedTransactionExpectedPresent {
        location: BlockLocation,
        actual_revision: VoxelDataKeyRevision,
    },
    PreparedTransactionExpectedTombstone {
        location: BlockLocation,
        actual_revision: VoxelDataKeyRevision,
    },
    PreparedTransactionConcurrentBlockState {
        location: BlockLocation,
        expected_viewers: u32,
        actual_viewers: u32,
        expected_modified: bool,
        actual_modified: bool,
        expected_edited: bool,
        actual_edited: bool,
        expected_has_voxels: bool,
        actual_has_voxels: bool,
    },
    PreparedTransactionNoop { location: BlockLocation },
    PreparedTransactionPreviewSetMismatch,
    PreparedTransactionBlockLodMismatch { location: BlockLocation, block_lod_index: u8 },
    PreparedTransactionBlockSizeMismatch {
        location: BlockLocation,
        expected_size: Vector3i,
        actual_size: Vector3i,
    },
    PreparedTransactionCapacityReservationFailed {
        reservation: SharedVoxelDataTransactionReservation,
    },
    PreparedTransactionAlreadyCommitted,
    CapacityReservationFailed,
}

} // verus!
