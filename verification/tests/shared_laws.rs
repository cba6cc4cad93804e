//! What holds of shared voxel data, on given values.

use std::sync::Arc;
use voxel_storage::boxes::Box3i;
use voxel_storage::channel::MAX_CHANNELS;
use voxel_storage::generator::{generate_single_from_block, SharedVoxelGenerator, VoxelGenerator};
use voxel_storage::map_areas::ViewOutcome;
use voxel_storage::math::Vector3i;
use voxel_storage::mutation_error::{
    SharedVoxelDataMutationError, SharedVoxelDataTransactionReservation,
};
use voxel_storage::prepared_transaction::TransactionLists;
use voxel_storage::revision::VoxelDataKeyRevision;
use voxel_storage::shared_data::SharedVoxelData;
use voxel_storage::shared_views::ReleaseOutcome;
use voxel_storage::transaction::SharedVoxelDataTransactionOperation;
use voxel_storage::voxel_buffer::VoxelBuffer;
use voxel_storage::voxel_data::{BlockLocation, VoxelData};
use voxel_storage::voxel_data_block::VoxelDataBlock;

const TYPE: usize = 0;

/// Gives every voxel the same value.
struct ConstantGenerator(u64);

impl VoxelGenerator for ConstantGenerator {
    fn generate_block(&self, buffer: &mut VoxelBuffer, _origin: Vector3i, _lod: u32) {
        buffer.fill(self.0, TYPE);
    }

    fn generate_single(&self, pos: Vector3i, channel_index: usize) -> u64 {
        generate_single_from_block(self, pos, channel_index)
    }

    fn used_channels_mask(&self) -> u32 {
        1 << TYPE
    }
}

fn loaded_data(lod_count: usize) -> VoxelData {
    let mut data = VoxelData::new();
    data.set_lod_count(lod_count).unwrap();
    data.set_bounds(Box3i::new(Vector3i::splat(-64), Vector3i::splat(128)));
    data.set_streaming_enabled(false);
    data.set_full_load_completed(true);
    data
}

fn shared(lod_count: usize) -> SharedVoxelData {
    SharedVoxelData::new(loaded_data(lod_count))
}

fn block(value: u64, lod_index: u8) -> VoxelDataBlock {
    let mut voxels = VoxelBuffer::with_size(Vector3i::splat(16));
    voxels.fill(value, TYPE);
    VoxelDataBlock::with_voxels(voxels, lod_index)
}

fn at(x: i32, lod_index: u8) -> BlockLocation {
    BlockLocation {
        position: Vector3i::new(x, 0, 0),
        lod_index,
    }
}

/// The value of a voxel, as far as its block has voxels.
fn read(shared: &SharedVoxelData, pos: Vector3i, lod_index: usize) -> Option<u64> {
    let block = shared.block_snapshot(pos.floor_div(16), lod_index)?;
    let local = pos.minus(pos.floor_div(16).times(16));
    Some(block.voxels().get_voxel(local.x, local.y, local.z, TYPE))
}

#[test]
fn edited_voxels_of_shared_data_are_read_back() {
    let mut shared = shared(1);
    let generator: SharedVoxelGenerator = Arc::new(ConstantGenerator(4));
    shared.set_generator(Some(generator)).unwrap();
    let pos = Vector3i::new(-3, 7, 20);
    assert_eq!(shared.try_edit_voxel_checked(0x1_0006, pos, TYPE), Ok(true));
    assert_eq!(read(&shared, pos, 0), Some(6));
    assert_eq!(read(&shared, Vector3i::new(-4, 7, 20), 0), Some(4));
    let position = Vector3i::new(-1, 0, 1);
    assert_eq!(
        shared.key_revision(position, 0),
        Some(VoxelDataKeyRevision::Present(1))
    );
    let edited = shared.block_snapshot(position, 0).unwrap();
    assert!(edited.is_modified());
    assert!(edited.is_edited());
    // Setting a voxel directly does not ask the generator.
    let beside = Vector3i::new(20, 0, 0);
    assert_eq!(shared.try_set_voxel_checked(8, beside, TYPE), Ok(true));
    assert_eq!(read(&shared, beside, 0), Some(8));
    assert_eq!(read(&shared, Vector3i::new(21, 0, 0), 0), Some(0));
}

#[test]
fn refused_edits_of_shared_data_change_nothing() {
    let mut shared = shared(1);
    let wrong = Err(SharedVoxelDataMutationError::InvalidChannel {
        channel_index: MAX_CHANNELS,
    });
    assert_eq!(
        shared.try_edit_voxel_checked(1, Vector3i::zero(), MAX_CHANNELS),
        wrong
    );
    assert_eq!(
        shared.try_set_voxel_checked(1, Vector3i::zero(), MAX_CHANNELS),
        wrong
    );
    assert_eq!(
        shared.try_edit_voxel_checked(1, Vector3i::splat(64), TYPE),
        Ok(false)
    );
    assert_eq!(
        shared.set_voxel_reserved(1, Vector3i::zero(), TYPE, false),
        Err(SharedVoxelDataMutationError::CapacityReservationFailed)
    );
    assert_eq!(
        shared.insert_block(Vector3i::zero(), block(1, 0), false),
        Err(SharedVoxelDataMutationError::CapacityReservationFailed)
    );
    assert_eq!(
        shared.try_set_block(Vector3i::splat(i32::MAX), block(1, 0)),
        Err(SharedVoxelDataMutationError::SpatialBoundsOverflow { lod_index: 0 })
    );
    assert_eq!(shared.block_count(), 0);
    assert_eq!(
        shared.key_revision(Vector3i::zero(), 0),
        Some(VoxelDataKeyRevision::Tombstone(0))
    );
    assert_eq!(shared.key_revision(Vector3i::zero(), 1), None);
}

#[test]
fn an_edit_is_refused_if_its_block_has_changed_since_it_was_started() {
    let mut shared = shared(1);
    let pos = Vector3i::zero();
    let start = shared.start_edit(pos).unwrap();
    assert!(shared.try_set_block(pos, block(9, 0)).unwrap());
    let voxels = VoxelBuffer::with_size(Vector3i::splat(16));
    assert_eq!(
        shared.commit_edit_voxel(start, Some(voxels), 1, pos, TYPE, true),
        Err(SharedVoxelDataMutationError::ConcurrentDataMutation {
            position: pos,
            lod_index: 0,
            expected_revision: VoxelDataKeyRevision::Tombstone(0),
            actual_revision: VoxelDataKeyRevision::Present(1),
        })
    );
    assert_eq!(read(&shared, pos, 0), Some(9));
    let start = shared.start_edit(pos).unwrap();
    let generator: SharedVoxelGenerator = Arc::new(ConstantGenerator(4));
    shared.set_generator(Some(generator)).unwrap();
    assert_eq!(
        shared.commit_edit_voxel(start, None, 1, pos, TYPE, true),
        Err(SharedVoxelDataMutationError::ConcurrentSettingsMutation {
            expected_revision: 0,
            actual_revision: 1,
        })
    );
    let start = shared.start_edit(pos).unwrap();
    assert_eq!(
        shared.commit_edit_voxel(start, None, 1, pos, TYPE, true),
        Ok(())
    );
    assert_eq!(read(&shared, pos, 0), Some(1));
}

#[test]
fn views_that_fail_leave_data_and_lists_as_they_were() {
    let mut shared = shared(1);
    let mut viewed = block(1, 0);
    viewed.set_viewers(1);
    assert!(shared.try_set_block(Vector3i::zero(), viewed).unwrap());
    let area = Box3i::new(Vector3i::zero(), Vector3i::new(2, 1, 1));
    let full = Err(SharedVoxelDataMutationError::CapacityReservationFailed);
    for (scratch, live) in [(false, true), (true, false)] {
        let mut missing = vec![Vector3i::splat(7)];
        let mut copies = Vec::new();
        assert_eq!(
            shared.view_area_reserved(
                area,
                0,
                Some(&mut missing),
                None,
                Some(&mut copies),
                ViewOutcome::new(),
                scratch,
                live,
            ),
            full
        );
        assert_eq!(missing, vec![Vector3i::splat(7)]);
        assert!(copies.is_empty());
        let mut removed = Vec::new();
        assert_eq!(
            shared.unview_area_reserved(
                area,
                0,
                Some(&mut removed),
                Some(&mut missing),
                None,
                ReleaseOutcome::new(),
                scratch,
                live,
            ),
            full
        );
        assert!(removed.is_empty());
        assert_eq!(missing, vec![Vector3i::splat(7)]);
    }
    assert_eq!(
        shared.key_revision(Vector3i::zero(), 0),
        Some(VoxelDataKeyRevision::Present(1))
    );
    let mut missing = vec![Vector3i::splat(7)];
    shared
        .view_area(area, 0, Some(&mut missing), None, None)
        .unwrap();
    assert_eq!(missing, vec![Vector3i::splat(7), Vector3i::new(1, 0, 0)]);
    assert_eq!(
        shared
            .block_snapshot(Vector3i::zero(), 0)
            .unwrap()
            .viewers(),
        2
    );
}

#[test]
fn a_modified_block_stays_when_it_is_released_and_not_saved() {
    let mut shared = shared(1);
    let mut dirty = block(5, 0);
    dirty.set_viewers(1);
    dirty.set_modified(true);
    assert!(shared.try_set_block(Vector3i::zero(), dirty).unwrap());
    let area = Box3i::new(Vector3i::zero(), Vector3i::splat(1));
    let mut removed = Vec::new();
    shared
        .unview_area(area, 0, Some(&mut removed), None, None)
        .unwrap();
    assert!(removed.is_empty());
    assert_eq!(shared.block_count(), 1);
    shared.view_area(area, 0, None, None, None).unwrap();
    let mut saves = Vec::new();
    shared
        .unview_area(area, 0, Some(&mut removed), None, Some(&mut saves))
        .unwrap();
    assert_eq!(removed, vec![Vector3i::zero()]);
    assert_eq!(saves.len(), 1);
    assert_eq!(saves[0].block_revision, 3);
    assert_eq!(
        shared.key_revision(Vector3i::zero(), 0),
        Some(VoxelDataKeyRevision::Tombstone(4))
    );
}

#[test]
fn marks_and_saves_without_room_change_nothing() {
    let mut shared = shared(2);
    assert!(shared.try_set_block(Vector3i::zero(), block(1, 0)).unwrap());
    let area = Box3i::new(Vector3i::zero(), Vector3i::splat(1));
    let full = SharedVoxelDataMutationError::CapacityReservationFailed;
    assert_eq!(
        shared.mark_area_modified_reserved(area, true, false),
        Err(full)
    );
    assert!(!shared
        .block_snapshot(Vector3i::zero(), 0)
        .unwrap()
        .is_modified());
    let marked = shared.mark_area_modified_checked(area, true).unwrap();
    assert_eq!(marked, vec![Vector3i::zero()]);
    // Marked again, the block gets no new revision.
    assert!(shared
        .mark_area_modified_checked(area, true)
        .unwrap()
        .is_empty());
    assert_eq!(
        shared.key_revision(Vector3i::zero(), 0),
        Some(VoxelDataKeyRevision::Present(2))
    );
    assert_eq!(
        shared.consume_all_modifications_reserved(false).err(),
        Some(full)
    );
    let changes = shared.prepare_lod_updates(&marked).unwrap();
    assert_eq!(
        shared.commit_lod_updates(0, changes, Some(1)),
        Err(full)
    );
    assert_eq!(shared.block_count(), 1);
    let saves = shared.consume_all_modifications_checked().unwrap();
    assert_eq!(saves.len(), 1);
    assert_eq!(saves[0].block_revision, 2);
    assert!(shared
        .consume_all_modifications_checked()
        .unwrap()
        .is_empty());
}

#[test]
fn saves_are_refused_level_by_level() {
    let full = SharedVoxelDataMutationError::CapacityReservationFailed;
    let conflict = |lod_index| SharedVoxelDataMutationError::ConcurrentDataMutation {
        position: Vector3i::zero(),
        lod_index,
        expected_revision: VoxelDataKeyRevision::Present(1),
        actual_revision: VoxelDataKeyRevision::Present(7),
    };
    let dirty = |changed: usize| {
        let mut shared = shared(2);
        for lod_index in 0..2 {
            let mut modified = block(1, lod_index);
            modified.set_modified(true);
            assert!(shared.try_set_block(Vector3i::zero(), modified).unwrap());
        }
        let copies = shared.prepare_dirty_consumption().unwrap();
        assert_eq!(copies.saves.len(), 2);
        shared
            .try_lod_map_write(changed)
            .unwrap()
            .commit_key_revision(Vector3i::zero(), 7);
        (shared, copies.changes)
    };
    // The finer level has no room before the coarser one has changed.
    let (mut late, changes) = dirty(1);
    assert_eq!(late.commit_dirty_consumption(&changes, Some(0)), Err(full));
    assert_eq!(
        late.commit_dirty_consumption(&changes, Some(1)),
        Err(conflict(1))
    );
    assert_eq!(
        late.commit_dirty_consumption(&changes, None),
        Err(conflict(1))
    );
    assert!(late.block_snapshot(Vector3i::zero(), 0).unwrap().is_modified());
    // The finer level has changed before the coarser one has no room.
    let (mut early, changes) = dirty(0);
    assert_eq!(
        early.commit_dirty_consumption(&changes, Some(1)),
        Err(conflict(0))
    );
    assert_eq!(early.reserve_changes(&changes), None);
}

#[test]
fn updates_of_coarser_levels_are_refused_level_by_level() {
    let full = SharedVoxelDataMutationError::CapacityReservationFailed;
    let mut shared = shared(3);
    assert_eq!(
        shared.try_edit_voxel_checked(6, Vector3i::zero(), TYPE),
        Ok(true)
    );
    let area = Box3i::new(Vector3i::zero(), Vector3i::splat(1));
    let marked = shared.mark_area_modified_checked(area, true).unwrap();
    let mut prepared: Vec<_> = (0..4)
        .map(|_| shared.prepare_lod_updates(&marked).unwrap())
        .collect();
    assert_eq!(shared.reserve_lod_changes(&prepared[0]), None);
    assert!(shared.try_set_block(Vector3i::zero(), block(1, 2)).unwrap());
    let conflict = SharedVoxelDataMutationError::ConcurrentDataMutation {
        position: Vector3i::zero(),
        lod_index: 2,
        expected_revision: VoxelDataKeyRevision::Tombstone(0),
        actual_revision: VoxelDataKeyRevision::Present(1),
    };
    let mut refuse = |short| {
        let changes = prepared.pop().unwrap();
        shared.commit_lod_updates(0, changes, short)
    };
    assert_eq!(refuse(Some(0)), Err(full));
    assert_eq!(refuse(Some(1)), Err(full));
    assert_eq!(refuse(Some(2)), Err(conflict));
    assert_eq!(refuse(None), Err(conflict));
    assert_eq!(shared.block_count(), 2);
}

#[test]
fn updates_of_coarser_levels_carry_edits_up() {
    let mut shared = shared(3);
    let pos = Vector3i::new(-4, 20, 8);
    assert_eq!(shared.try_edit_voxel_checked(6, pos, TYPE), Ok(true));
    let area = Box3i::new(pos, Vector3i::splat(1));
    let marked = shared.mark_area_modified_checked(area, true).unwrap();
    let updated = shared.update_lods_from_lod0_blocks_checked(&marked).unwrap();
    assert_eq!(
        updated.iter().map(|l| l.lod_index).collect::<Vec<_>>(),
        vec![0, 1, 2]
    );
    assert_eq!(read(&shared, Vector3i::new(-2, 10, 4), 1), Some(6));
    assert_eq!(read(&shared, Vector3i::new(-1, 5, 2), 2), Some(6));
    assert_eq!(
        shared.key_revision(Vector3i::new(-1, 0, 0), 2),
        Some(VoxelDataKeyRevision::Present(1))
    );
}

#[test]
fn transactions_refuse_blocks_that_do_not_fit() {
    let shared = shared(2);
    let refuse = |operation| {
        let failed = shared.prepare_transaction(vec![operation]).err().unwrap();
        let (error, operations) = failed.into_parts();
        assert_eq!(operations.len(), 1);
        error
    };
    assert_eq!(
        refuse(SharedVoxelDataTransactionOperation::Insert {
            location: at(0, 0),
            block: block(1, 1),
            final_viewers: 0,
        }),
        SharedVoxelDataMutationError::PreparedTransactionBlockLodMismatch {
            location: at(0, 0),
            block_lod_index: 1,
        }
    );
    let small = VoxelBuffer::with_size(Vector3i::new(16, 16, 8));
    assert_eq!(
        refuse(SharedVoxelDataTransactionOperation::Insert {
            location: at(0, 1),
            block: VoxelDataBlock::with_voxels(small, 1),
            final_viewers: 0,
        }),
        SharedVoxelDataMutationError::PreparedTransactionBlockSizeMismatch {
            location: at(0, 1),
            expected_size: Vector3i::splat(16),
            actual_size: Vector3i::new(16, 16, 8),
        }
    );
    assert_eq!(
        refuse(SharedVoxelDataTransactionOperation::Remove { location: at(0, 2) }),
        SharedVoxelDataMutationError::LodDestinationUnavailable {
            position: Vector3i::zero(),
            lod_index: 2,
        }
    );
    assert_eq!(
        refuse(SharedVoxelDataTransactionOperation::Remove {
            location: at(i32::MAX, 0)
        }),
        SharedVoxelDataMutationError::SpatialBoundsOverflow { lod_index: 0 }
    );
    assert_eq!(shared.block_count(), 0);
}

#[test]
fn a_transaction_is_committed_whole_and_once() {
    let mut shared = shared(2);
    for x in 0..3 {
        let mut b = block(x as u64, 0);
        b.set_modified(true);
        assert!(shared.try_set_block(Vector3i::new(x, 0, 0), b).unwrap());
    }
    let mut prepared = shared
        .prepare_transaction(vec![
            SharedVoxelDataTransactionOperation::Insert {
                location: at(5, 1),
                block: block(50, 1),
                final_viewers: 3,
            },
            SharedVoxelDataTransactionOperation::Remove { location: at(1, 0) },
            SharedVoxelDataTransactionOperation::SetViewersExactAndClearModified {
                location: at(0, 0),
                final_viewers: 4,
            },
        ])
        .unwrap();
    assert!(prepared.is_prepared_for(&shared));
    assert_eq!(prepared.inserted_block(at(5, 1)).unwrap().lod_index(), 1);
    assert!(prepared.owned_block(at(1, 0)).is_none());
    // What happens to other keys does not matter.
    assert_eq!(
        shared.try_set_voxel_checked(9, Vector3i::new(33, 0, 0), TYPE),
        Ok(true)
    );
    let outcome = prepared.commit(&mut shared).unwrap();
    let removed = outcome.into_removed_blocks();
    assert_eq!(removed.len(), 1);
    assert_eq!(removed[0].location(), at(1, 0));
    assert_eq!(removed[0].block_revision(), 1);
    let first = shared.block_snapshot(Vector3i::zero(), 0).unwrap();
    assert_eq!(first.viewers(), 4);
    assert!(!first.is_modified());
    for (location, revision) in [
        (at(0, 0), VoxelDataKeyRevision::Present(2)),
        (at(1, 0), VoxelDataKeyRevision::Tombstone(2)),
        (at(2, 0), VoxelDataKeyRevision::Present(2)),
        (at(5, 1), VoxelDataKeyRevision::Present(1)),
        (at(5, 0), VoxelDataKeyRevision::Tombstone(0)),
    ] {
        assert_eq!(
            shared.key_revision(location.position, location.lod_index as usize),
            Some(revision)
        );
    }
    assert_eq!(
        prepared.commit(&mut shared).err(),
        Some(SharedVoxelDataMutationError::PreparedTransactionAlreadyCommitted)
    );
    assert_eq!(
        prepared.into_operations().err(),
        Some(SharedVoxelDataMutationError::PreparedTransactionAlreadyCommitted)
    );
}

#[test]
fn a_disturbed_transaction_is_refused_and_gives_its_operations_back() {
    let mut shared = shared(1);
    assert!(shared.try_set_block(Vector3i::zero(), block(1, 0)).unwrap());
    let mut prepared = shared
        .prepare_transaction(vec![SharedVoxelDataTransactionOperation::Replace {
            location: at(0, 0),
            block: block(2, 0),
        }])
        .unwrap();
    assert_eq!(
        shared.try_set_voxel_checked(3, Vector3i::zero(), TYPE),
        Ok(true)
    );
    assert_eq!(
        prepared.commit(&mut shared).err(),
        Some(SharedVoxelDataMutationError::ConcurrentDataMutation {
            position: Vector3i::zero(),
            lod_index: 0,
            expected_revision: VoxelDataKeyRevision::Present(1),
            actual_revision: VoxelDataKeyRevision::Present(2),
        })
    );
    assert_eq!(read(&shared, Vector3i::zero(), 0), Some(3));
    let mut retry = shared
        .prepare_transaction(prepared.into_operations().unwrap())
        .unwrap();
    retry.commit(&mut shared).unwrap();
    assert_eq!(read(&shared, Vector3i::zero(), 0), Some(2));
}

#[test]
fn previews_permits_and_transactions_of_other_data_are_told_apart() {
    let mut first = shared(1);
    let mut second = shared(1);
    assert!(first.lineage().same_as(first.lineage()));
    assert!(!first.lineage().same_as(second.lineage()));
    let preview = first.begin_transaction_preview();
    let snapshot = preview.block_snapshot(&second, at(0, 0)).unwrap();
    let remove = || SharedVoxelDataTransactionOperation::Remove { location: at(0, 0) };
    let error = preview
        .prepare_transaction(&second, vec![remove()], &vec![snapshot])
        .err()
        .unwrap();
    assert_eq!(
        error.error(),
        &SharedVoxelDataMutationError::PreparedTransactionPreviewSetMismatch
    );
    let permit = first.close_mutation_admission_for_shutdown();
    assert_eq!(
        second.validate_shutdown_mutation_permit(&permit),
        Err(SharedVoxelDataMutationError::ShutdownMutationPermitMismatch)
    );
    assert_eq!(first.validate_shutdown_mutation_permit(&permit), Ok(()));
    assert_eq!(
        first.try_set_voxel_checked(1, Vector3i::zero(), TYPE),
        Err(SharedVoxelDataMutationError::MutationAdmissionClosed)
    );
    first.reopen_mutation_admission();
    assert!(!first.is_mutation_admission_closed());
    assert!(second.try_set_block(Vector3i::zero(), block(1, 0)).unwrap());
    let prepared = second.prepare_transaction(vec![remove()]).unwrap();
    assert!(prepared.is_prepared_for(&second));
    assert!(!prepared.is_prepared_for(&first));
}

#[test]
fn a_prepared_edit_reaches_all_levels_at_once_and_is_read_back() {
    let mut shared = shared(3);
    let generator: SharedVoxelGenerator = Arc::new(ConstantGenerator(4));
    shared.set_generator(Some(generator)).unwrap();
    let pos = Vector3i::new(-4, 20, 8);
    let mut edit = shared.prepare_voxel_edit(6, pos, TYPE).unwrap().unwrap();
    assert_eq!(shared.block_count(), 0);
    assert_eq!(edit.block_revision(), 1);
    assert_eq!(edit.edited_block().position, Vector3i::new(-1, 1, 0));
    let places = edit.inserted_locations().clone();
    assert_eq!(places.len(), 3);
    assert!(edit.set_insert_final_viewers(places[1], 7));
    assert!(!edit.set_insert_final_viewers(at(9, 1), 7));
    assert_eq!(
        edit.transaction_mut()
            .owned_block(places[2])
            .unwrap()
            .lod_index(),
        2
    );
    let mut transaction = edit.into_transaction();
    transaction.commit(&mut shared).unwrap();
    assert_eq!(read(&shared, pos, 0), Some(6));
    assert_eq!(read(&shared, Vector3i::new(-2, 10, 4), 1), Some(6));
    assert_eq!(read(&shared, Vector3i::new(-1, 5, 2), 2), Some(6));
    assert_eq!(read(&shared, Vector3i::new(-2, 5, 2), 2), Some(4));
    assert_eq!(
        shared
            .block_snapshot(places[1].position, 1)
            .unwrap()
            .viewers(),
        7
    );
}

#[test]
fn edits_and_snapshots_without_room_are_not_prepared() {
    let mut shared = shared(2);
    for (drafts, lists) in [(false, true), (true, false)] {
        assert!(shared
            .prepare_voxel_edit_reserved(1, Vector3i::zero(), TYPE, drafts, lists, None)
            .is_err());
    }
    assert!(shared
        .prepare_voxel_edit_reserved(1, Vector3i::zero(), TYPE, true, true, None)
        .unwrap()
        .is_some());
    for reservation in [
        SharedVoxelDataTransactionReservation::OperationStorage,
        SharedVoxelDataTransactionReservation::RemovedOutcome,
    ] {
        assert_eq!(
            shared
                .prepare_voxel_edit_reserved(
                    1,
                    Vector3i::zero(),
                    TYPE,
                    true,
                    true,
                    Some(reservation)
                )
                .err(),
            Some(
                SharedVoxelDataMutationError::PreparedTransactionCapacityReservationFailed {
                    reservation,
                }
            )
        );
    }
    let error = shared
        .prepare_transaction_reserved(
            vec![SharedVoxelDataTransactionOperation::Insert {
                location: at(0, 0),
                block: block(1, 0),
                final_viewers: 0,
            }],
            0,
            TransactionLists::new(),
            Some(SharedVoxelDataTransactionReservation::OperationStorage),
        )
        .err()
        .unwrap();
    assert_eq!(
        error.error(),
        &SharedVoxelDataMutationError::PreparedTransactionCapacityReservationFailed {
            reservation: SharedVoxelDataTransactionReservation::OperationStorage,
        }
    );
    assert_eq!(error.operations().len(), 1);
    assert!(shared.try_reserve(0, 4, 4));
    assert_eq!(shared.block_count(), 0);
}

#[test]
fn a_level_that_nobody_writes_can_be_read_by_many() {
    let mut shared = shared(2);
    let near = Box3i::new(Vector3i::zero(), Vector3i::splat(8));
    let far = Box3i::new(Vector3i::splat(8), Vector3i::splat(8));
    let first = shared.try_read_region(0, near).unwrap();
    let second = shared.try_read_region(0, near).unwrap();
    assert!(shared.try_write_region(0, near).is_none());
    assert!(!shared.allows_write(0, first.bounds));
    let third = shared.try_write_region(0, far).unwrap();
    assert!(shared.try_write_region(1, near).is_some());
    assert!(shared.try_read_region(0, far).is_none());
    assert_eq!(shared.locked_region_count(0), 3);
    assert_eq!(shared.locked_region_count(1), 1);
    for region in [first, second, third] {
        shared.unlock_region(0, region);
    }
    assert_eq!(shared.locked_region_count(0), 0);
    assert!(shared.try_write_region(0, near).is_some());
}

#[test]
fn the_same_generator_again_is_no_change_of_settings() {
    let mut shared = shared(1);
    let generator: SharedVoxelGenerator = Arc::new(ConstantGenerator(4));
    shared.set_generator(Some(generator.clone())).unwrap();
    assert_eq!(shared.settings_revision(), 1);
    shared.set_generator(Some(generator)).unwrap();
    assert_eq!(shared.settings_revision(), 1);
    let other: SharedVoxelGenerator = Arc::new(ConstantGenerator(4));
    shared.set_generator(Some(other)).unwrap();
    assert_eq!(shared.settings_snapshot().revision, 2);
    shared.set_generator(None).unwrap();
    assert!(shared.generator().is_none());
    shared.set_generator(None).unwrap();
    assert_eq!(shared.settings_revision(), 3);
}

#[test]
fn blocks_that_are_put_in_are_counted() {
    let mut shared = shared(2);
    assert_eq!(shared.block_count(), 0);
    assert_eq!(shared.try_set_block(Vector3i::zero(), block(1, 0)), Ok(true));
    assert_eq!(shared.block_count(), 1);
    assert_eq!(
        shared.try_set_block(Vector3i::zero(), VoxelDataBlock::empty(1)),
        Ok(true)
    );
    assert_eq!(shared.block_count(), 2);
    // A block that is there stays, and so does the number.
    assert_eq!(shared.try_set_block(Vector3i::zero(), block(2, 0)), Ok(false));
    assert_eq!(shared.block_count(), 2);
    assert_eq!(
        shared.insert_block(Vector3i::splat(1), block(2, 0), false),
        Err(SharedVoxelDataMutationError::CapacityReservationFailed)
    );
    assert_eq!(shared.block_count(), 2);
}

#[test]
fn removed_blocks_come_in_the_order_of_their_keys() {
    let mut shared = shared(2);
    let places = [at(3, 1), at(-2, 0), at(0, 1), at(7, 0)];
    for place in places {
        assert_eq!(
            shared.try_set_block(place.position, block(1, place.lod_index)),
            Ok(true)
        );
    }
    let operations = places
        .into_iter()
        .map(|location| SharedVoxelDataTransactionOperation::Remove { location })
        .collect();
    let mut transaction = shared.prepare_transaction(operations).unwrap();
    let removed = transaction.commit(&mut shared).unwrap().into_removed_blocks();
    let order: Vec<BlockLocation> = removed.iter().map(|block| block.location).collect();
    assert_eq!(order, vec![at(-2, 0), at(7, 0), at(0, 1), at(3, 1)]);
    assert_eq!(shared.block_count(), 0);
}

#[test]
fn what_needs_no_room_is_always_done() {
    let mut shared = shared(1);
    // Nothing is modified, so there is nothing to copy.
    let preview = shared.begin_transaction_preview();
    let copies = preview.prepare_resident_dirty_copies(&shared).unwrap();
    let (operations, snapshots, payloads) = copies.into_parts();
    assert!(operations.is_empty() && snapshots.is_empty() && payloads.is_empty());
    // Nothing is looked at, so nothing is listed.
    let nowhere = Box3i::new(Vector3i::zero(), Vector3i::zero());
    let mut missing = Vec::new();
    assert_eq!(
        shared.view_area(nowhere, 0, Some(&mut missing), None, None),
        Ok(())
    );
    assert_eq!(
        shared.unview_area(nowhere, 0, None, Some(&mut missing), None),
        Ok(())
    );
    assert!(missing.is_empty());
    // A transaction without operations is prepared and committed.
    let mut empty = shared.prepare_transaction(Vec::new()).unwrap();
    assert!(empty.commit(&mut shared).unwrap().into_removed_blocks().is_empty());
}

#[test]
fn modified_blocks_are_copied_where_there_is_room() {
    let mut shared = shared(2);
    let places = [at(4, 1), at(1, 0), at(-1, 0)];
    for (value, place) in [6, 7, 8].into_iter().zip(places) {
        let mut modified = block(value, place.lod_index);
        modified.set_modified(true);
        assert_eq!(shared.try_set_block(place.position, modified), Ok(true));
    }
    let preview = shared.begin_transaction_preview();
    let copies = preview
        .prepare_resident_dirty_copies_reserved(&shared, None, 3)
        .unwrap();
    let (operations, snapshots, payloads) = copies.into_parts();
    assert_eq!(operations.len(), 3);
    assert_eq!(snapshots.len(), 3);
    let copied: Vec<(BlockLocation, u64, u64)> = payloads
        .iter()
        .map(|p| (p.location, p.block_revision, p.voxels.get_voxel(3, 2, 1, TYPE)))
        .collect();
    assert_eq!(
        copied,
        vec![(at(-1, 0), 1, 8), (at(1, 0), 1, 7), (at(4, 1), 1, 6)]
    );
    for room in 0..3 {
        assert_eq!(
            preview
                .prepare_resident_dirty_copies_reserved(&shared, None, room)
                .err(),
            Some(
                SharedVoxelDataMutationError::PreparedTransactionCapacityReservationFailed {
                    reservation:
                        SharedVoxelDataTransactionReservation::ResidentDirtyPayloadCopy,
                }
            )
        );
    }
    // A block without voxels comes before the lack of room behind it.
    let mut bare = VoxelDataBlock::empty(0);
    bare.set_modified(true);
    assert_eq!(shared.try_set_block(Vector3i::new(-5, 0, 0), bare), Ok(true));
    for room in 0..5 {
        assert_eq!(
            preview
                .prepare_resident_dirty_copies_reserved(&shared, None, room)
                .err(),
            Some(SharedVoxelDataMutationError::DirtyBlockMissingVoxels {
                location: at(-5, 0)
            })
        );
    }
}
