//! Transactions over shared voxel data.

use std::sync::{Arc, Mutex};
use voxel_storage::boxes::Box3i;
use voxel_storage::channel::{ChannelId, MAX_CHANNELS};
use voxel_storage::generator::{
    generate_single_from_block, SharedVoxelGenerator, VoxelGenerator,
};
use voxel_storage::math::Vector3i;
use voxel_storage::mutation_error::{
    SharedVoxelDataMutationError, SharedVoxelDataTransactionReservation,
};
use voxel_storage::prepared_transaction::{PreparedSharedVoxelDataTransaction, TransactionLists};
use voxel_storage::revision::VoxelDataKeyRevision;
use voxel_storage::shared_data::SharedVoxelData;
use voxel_storage::transaction::SharedVoxelDataTransactionOperation;
use voxel_storage::voxel_buffer::VoxelBuffer;
use voxel_storage::voxel_data::{BlockLocation, VoxelData};
use voxel_storage::voxel_data_block::VoxelDataBlock;
use voxel_storage::voxel_data_map::VoxelDataMap;

/// Remembers what it was asked for.
#[derive(Default)]
struct RecordingGenerator {
    calls: Mutex<Vec<(Vector3i, u32)>>,
}

impl VoxelGenerator for RecordingGenerator {
    fn generate_block(&self, buffer: &mut VoxelBuffer, origin_in_voxels: Vector3i, lod: u32) {
        self.calls.lock().unwrap().push((origin_in_voxels, lod));
        let value = 10 + lod as u64 + origin_in_voxels.x as u64;
        buffer.fill(value, ChannelId::Type.index());
    }

    fn generate_single(&self, pos: Vector3i, channel_index: usize) -> u64 {
        generate_single_from_block(self, pos, channel_index)
    }

    fn used_channels_mask(&self) -> u32 {
        1 << ChannelId::Type.index()
    }
}

fn make_tagged_lod_block(value: u64, lod_index: u8) -> VoxelDataBlock {
    let mut voxels = VoxelBuffer::with_size(Vector3i::splat(VoxelDataMap::BLOCK_SIZE as i32));
    voxels.set_voxel(value, 0, 0, 0, ChannelId::Type.index());
    VoxelDataBlock::with_voxels(voxels, lod_index)
}

/// Where the values of a block are in memory.
fn block_buffer_identity(block: &VoxelDataBlock) -> usize {
    let bytes = block.voxels().channel_bytes(ChannelId::Type.index());
    assert!(!bytes.is_empty(), "the values must be stored");
    bytes.as_ptr() as usize
}

fn with_map_mut<R>(
    shared: &mut SharedVoxelData,
    lod_index: usize,
    f: impl FnOnce(&mut VoxelDataMap) -> R,
) -> R {
    f(shared.try_lod_map_write(lod_index).unwrap())
}

fn make_data(lod_count: usize) -> VoxelData {
    let mut data = VoxelData::new();
    data.set_lod_count(lod_count).unwrap();
    data.set_bounds(Box3i::new(Vector3i::splat(-1024), Vector3i::splat(2048)));
    data
}

fn make_shared_data_with_lods(lod_count: usize) -> SharedVoxelData {
    SharedVoxelData::new(make_data(lod_count))
}

fn make_atomic_edit_shared_data(lod_count: usize) -> SharedVoxelData {
    let mut data = make_data(lod_count);
    data.set_streaming_enabled(false);
    data.set_full_load_completed(true);
    SharedVoxelData::new(data)
}

fn location(position: Vector3i, lod_index: u8) -> BlockLocation {
    BlockLocation {
        position,
        lod_index,
    }
}

fn assert_insert_operation_identity(
    operations: &[SharedVoxelDataTransactionOperation],
    location: BlockLocation,
    identity: usize,
) {
    let block = operations.iter().find_map(|operation| match operation {
        SharedVoxelDataTransactionOperation::Insert {
            location: operation_location,
            block,
            ..
        } if *operation_location == location => Some(block),
        _ => None,
    });
    assert_eq!(block.map(block_buffer_identity), Some(identity));
}

/// The error of a commit for which a reservation fails.
fn commit_without_room(
    prepared: &mut PreparedSharedVoxelDataTransaction,
    shared: &mut SharedVoxelData,
    reservation: SharedVoxelDataTransactionReservation,
) -> SharedVoxelDataMutationError {
    prepared
        .commit_reserved(shared, Some(reservation))
        .err()
        .unwrap()
}

#[test]
fn prepared_edit_materializes_and_propagates_all_lods_in_one_revisioned_batch() {
    let mut shared = make_atomic_edit_shared_data(3);
    let channel = ChannelId::Type.index();
    let edited_voxel = Vector3i::new(20, 4, 4);
    let mut prepared = shared
        .prepare_voxel_edit(77, edited_voxel, channel)
        .unwrap()
        .expect("non-streaming storage must materialize the complete edit pyramid");

    assert_eq!(prepared.edited_block(), location(Vector3i::new(1, 0, 0), 0));
    assert_eq!(prepared.block_revision(), 1);
    assert_eq!(shared.block_count(), 0, "preparation must not publish data");
    let draft_identities = (0..3)
        .map(|lod_index| {
            let position = if lod_index == 0 {
                Vector3i::new(1, 0, 0)
            } else {
                Vector3i::zero()
            };
            block_buffer_identity(
                prepared
                    .transaction_mut()
                    .owned_block(location(position, lod_index as u8))
                    .unwrap(),
            )
        })
        .collect::<Vec<_>>();
    let outcome = prepared.transaction_mut().commit(&mut shared).unwrap();
    assert!(outcome.removed_blocks().is_empty());

    let expected = [
        (Vector3i::new(1, 0, 0), Vector3i::new(4, 4, 4)),
        (Vector3i::zero(), Vector3i::new(10, 2, 2)),
        (Vector3i::zero(), Vector3i::new(5, 1, 1)),
    ];
    for (lod_index, (block_position, local_position)) in expected.into_iter().enumerate() {
        let block = shared.block_snapshot(block_position, lod_index).unwrap();
        assert_eq!(
            shared.with_lod_map(lod_index, |map| {
                block_buffer_identity(map.get_block(block_position).unwrap())
            }),
            draft_identities[lod_index]
        );
        assert_eq!(
            block.voxels().get_voxel(
                local_position.x,
                local_position.y,
                local_position.z,
                channel,
            ),
            77
        );
        assert!(block.is_modified());
        assert_eq!(block.is_edited(), lod_index == 0);
        assert!(!block.needs_lodding());
        assert_eq!(block.viewers.get(), 0);
        assert_eq!(
            shared.key_revision(block_position, lod_index),
            Some(VoxelDataKeyRevision::Present(1))
        );
    }
}

#[test]
fn prepared_edit_invalid_channel_and_unavailable_block_are_non_mutating() {
    let mut shared = make_atomic_edit_shared_data(3);
    assert!(matches!(
        shared.prepare_voxel_edit(
            1,
            Vector3i::zero(),
            MAX_CHANNELS,
        ),
        Err(SharedVoxelDataMutationError::InvalidChannel {
            channel_index: MAX_CHANNELS,
        })
    ));
    assert_eq!(shared.block_count(), 0);

    let mut streaming = make_shared_data_with_lods(3);
    assert!(streaming
        .prepare_voxel_edit(2, Vector3i::zero(), ChannelId::Type.index())
        .unwrap()
        .is_none());
    assert_eq!(streaming.block_count(), 0);
    for lod_index in 0..3 {
        assert_eq!(
            streaming.key_revision(Vector3i::zero(), lod_index),
            Some(VoxelDataKeyRevision::Tombstone(0))
        );
    }

    let mut resident_lod0 = make_tagged_lod_block(7, 0);
    resident_lod0.viewers.set_exact(4);
    resident_lod0.set_modified(true);
    resident_lod0.set_edited(true);
    resident_lod0.set_needs_lodding(true);
    let resident_identity = block_buffer_identity(&resident_lod0);
    assert!(streaming
        .try_set_block(Vector3i::zero(), resident_lod0)
        .unwrap());
    assert!(streaming
        .prepare_voxel_edit(8, Vector3i::zero(), ChannelId::Type.index())
        .unwrap()
        .is_none());
    streaming.with_lod_map(0, |map| {
        let resident = map.get_block(Vector3i::zero()).unwrap();
        assert_eq!(block_buffer_identity(resident), resident_identity);
        assert_eq!(resident.viewers.get(), 4);
        assert!(resident.is_modified());
        assert!(resident.is_edited());
        assert!(resident.needs_lodding());
        assert_eq!(
            resident
                .voxels()
                .get_voxel(0, 0, 0, ChannelId::Type.index()),
            7
        );
    });
    assert_eq!(
        streaming.key_revision(Vector3i::zero(), 0),
        Some(VoxelDataKeyRevision::Present(1))
    );
    for lod_index in 1..3 {
        assert_eq!(
            streaming.key_revision(Vector3i::zero(), lod_index),
            Some(VoxelDataKeyRevision::Tombstone(0))
        );
    }
}

#[test]
fn prepared_edit_late_lod_conflict_returns_every_replacement_owner() {
    let mut shared = make_atomic_edit_shared_data(3);
    let positions = [Vector3i::zero(); 3];
    let mut live_identities = Vec::new();
    for (lod_index, position) in positions.into_iter().enumerate() {
        assert!(shared
            .try_set_block(
                position,
                make_tagged_lod_block(10 + lod_index as u64, lod_index as u8)
            )
            .unwrap());
        live_identities.push(shared.with_lod_map(lod_index, |map| {
            block_buffer_identity(map.get_block(position).unwrap())
        }));
    }
    let mut prepared = shared
        .prepare_voxel_edit(99, Vector3i::zero(), ChannelId::Type.index())
        .unwrap()
        .unwrap();
    let replacement_identities = (0..3)
        .map(|lod_index| {
            block_buffer_identity(
                prepared
                    .transaction_mut()
                    .owned_block(location(Vector3i::zero(), lod_index as u8))
                    .unwrap(),
            )
        })
        .collect::<Vec<_>>();

    let mut conflict = shared
        .prepare_transaction(vec![SharedVoxelDataTransactionOperation::SetViewersExact {
            location: location(Vector3i::zero(), 2),
            final_viewers: 77,
        }])
        .unwrap();
    assert!(conflict.commit(&mut shared).unwrap().removed_blocks().is_empty());
    assert_eq!(
        prepared.transaction_mut().commit(&mut shared).err().unwrap(),
        SharedVoxelDataMutationError::ConcurrentDataMutation {
            position: Vector3i::zero(),
            lod_index: 2,
            expected_revision: VoxelDataKeyRevision::Present(1),
            actual_revision: VoxelDataKeyRevision::Present(2),
        }
    );

    for lod_index in 0..3 {
        let location = location(Vector3i::zero(), lod_index as u8);
        assert_eq!(
            block_buffer_identity(prepared.transaction_mut().owned_block(location).unwrap()),
            replacement_identities[lod_index]
        );
        shared.with_lod_map(lod_index, |map| {
            let live = map.get_block(Vector3i::zero()).unwrap();
            assert_eq!(block_buffer_identity(live), live_identities[lod_index]);
            assert_eq!(live.viewers.get(), if lod_index == 2 { 77 } else { 0 });
            assert_eq!(
                live.voxels().get_voxel(0, 0, 0, ChannelId::Type.index()),
                10 + lod_index as u64
            );
        });
    }
    assert_eq!(
        shared.key_revision(Vector3i::zero(), 0),
        Some(VoxelDataKeyRevision::Present(1))
    );
    assert_eq!(
        shared.key_revision(Vector3i::zero(), 1),
        Some(VoxelDataKeyRevision::Present(1))
    );
    assert_eq!(
        shared.key_revision(Vector3i::zero(), 2),
        Some(VoxelDataKeyRevision::Present(2))
    );
    let operations = prepared.into_transaction().into_operations().unwrap();
    assert_eq!(operations.len(), 3);
    for (lod_index, expected_identity) in replacement_identities.into_iter().enumerate() {
        let actual = operations.iter().find_map(|operation| match operation {
            SharedVoxelDataTransactionOperation::Replace {
                location: operation_location,
                block,
            } if *operation_location == location(Vector3i::zero(), lod_index as u8) => {
                assert_eq!(block.viewers.get(), 0);
                assert!(block.is_modified());
                assert_eq!(block.is_edited(), lod_index == 0);
                assert!(!block.needs_lodding());
                Some(block_buffer_identity(block))
            }
            _ => None,
        });
        assert_eq!(actual, Some(expected_identity));
    }
}

#[test]
fn transaction_preview_settings_conflict_preserves_insert_owner_for_fresh_preview_retry() {
    let mut shared = make_shared_data_with_lods(1);
    let observed = location(Vector3i::zero(), 0);
    let inserted = location(Vector3i::new(1, 0, 0), 0);
    assert!(shared
        .try_set_block(observed.position, make_tagged_lod_block(91, 0))
        .unwrap());
    let preview = shared.begin_transaction_preview();
    assert_eq!(preview.settings().revision, 0);
    assert_eq!(preview.block_size(), shared.block_size());
    let snapshots = vec![
        preview.block_snapshot(&shared, observed).unwrap(),
        preview.block_snapshot(&shared, inserted).unwrap(),
    ];
    let block = make_tagged_lod_block(92, 0);
    let identity = block_buffer_identity(&block);
    let operations = vec![SharedVoxelDataTransactionOperation::Insert {
        location: inserted,
        block,
        final_viewers: 7,
    }];

    let generator: SharedVoxelGenerator = Arc::new(RecordingGenerator::default());
    shared.set_generator(Some(generator)).unwrap();

    let error = preview
        .prepare_transaction(&shared, operations, &snapshots)
        .err().unwrap();
    assert_eq!(
        error.error(),
        &SharedVoxelDataMutationError::ConcurrentSettingsMutation {
            expected_revision: 0,
            actual_revision: 1,
        }
    );
    let (_, operations) = error.into_parts();
    assert_insert_operation_identity(&operations, inserted, identity);
    assert!(!shared.with_lod_map(0, |map| map.has_block(inserted.position)));

    let retry_preview = shared.begin_transaction_preview();
    assert_eq!(retry_preview.settings().revision, 1);
    let retry_snapshots = vec![
        retry_preview.block_snapshot(&shared, observed).unwrap(),
        retry_preview.block_snapshot(&shared, inserted).unwrap(),
    ];
    let mut retry = retry_preview
        .prepare_transaction(&shared, operations, &retry_snapshots)
        .unwrap();
    assert_eq!(
        block_buffer_identity(retry.inserted_block(inserted).unwrap()),
        identity
    );
    retry.commit(&mut shared).unwrap();
    assert_eq!(
        shared.with_lod_map(0, |map| {
            block_buffer_identity(map.get_block(inserted.position).unwrap())
        }),
        identity
    );
}

#[test]
fn observation_only_transaction_preview_rejects_settings_change_before_prepare() {
    let mut shared = make_shared_data_with_lods(1);
    let observed = location(Vector3i::new(2, 0, 0), 0);
    assert!(shared
        .try_set_block(observed.position, make_tagged_lod_block(93, 0))
        .unwrap());
    let revision_before = shared.key_revision(observed.position, 0).unwrap();
    let preview = shared.begin_transaction_preview();
    let snapshots = vec![preview.block_snapshot(&shared, observed).unwrap()];

    let generator: SharedVoxelGenerator = Arc::new(RecordingGenerator::default());
    shared.set_generator(Some(generator)).unwrap();

    let error = preview
        .prepare_transaction(&shared, Vec::new(), &snapshots)
        .err().unwrap();
    assert_eq!(
        error.error(),
        &SharedVoxelDataMutationError::ConcurrentSettingsMutation {
            expected_revision: 0,
            actual_revision: 1,
        }
    );
    assert!(error.operations().is_empty());
    assert_eq!(
        shared.key_revision(observed.position, 0),
        Some(revision_before)
    );
    assert_eq!(
        shared.with_lod_map(0, |map| map
            .get_block(observed.position)
            .unwrap()
            .viewers
            .get()),
        0
    );
}

#[test]
fn transaction_preview_rejects_snapshots_from_another_preview_or_data_lineage() {
    for cross_data in [false, true] {
        let mut target = SharedVoxelData::new(make_data(1));
        let mut other = SharedVoxelData::new(make_data(1));
        let inserted = location(Vector3i::new(3, 0, 0), 0);
        let source = if cross_data { &mut other } else { &mut target };
        let source_preview = source.begin_transaction_preview();
        let foreign_snapshots = vec![source_preview.block_snapshot(source, inserted).unwrap()];
        let target_preview = target.begin_transaction_preview();
        let block = make_tagged_lod_block(94 + u64::from(cross_data), 0);
        let identity = block_buffer_identity(&block);

        let error = target_preview
            .prepare_transaction(
                &target,
                vec![SharedVoxelDataTransactionOperation::Insert {
                    location: inserted,
                    block,
                    final_viewers: 1,
                }],
                &foreign_snapshots,
            )
            .err()
            .unwrap();

        assert_eq!(
            error.error(),
            &SharedVoxelDataMutationError::PreparedTransactionPreviewSetMismatch
        );
        let (_, operations) = error.into_parts();
        assert_insert_operation_identity(&operations, inserted, identity);
        assert!(!target.with_lod_map(0, |map| map.has_block(inserted.position)));
    }
}

#[test]
fn snapshot_transaction_preview_and_observation_reservations_are_typed_and_preserve_insert_owner(
) {
    for reservation in [
        SharedVoxelDataTransactionReservation::PreviewSnapshotStorage,
        SharedVoxelDataTransactionReservation::ObservationStorage,
    ] {
        let mut shared = make_shared_data_with_lods(1);
        let observed = location(Vector3i::zero(), 0);
        let inserted = location(Vector3i::new(1, 0, 0), 0);
        assert!(shared
            .try_set_block(observed.position, make_tagged_lod_block(101, 0))
            .unwrap());
        let preview = shared.begin_transaction_preview();
        let snapshots = vec![
            preview.block_snapshot(&shared, observed).unwrap(),
            preview.block_snapshot(&shared, inserted).unwrap(),
        ];
        let block = make_tagged_lod_block(102, 0);
        let identity = block_buffer_identity(&block);

        let error = shared
            .prepare_transaction_from_snapshots_reserved(
                vec![SharedVoxelDataTransactionOperation::Insert {
                    location: inserted,
                    block,
                    final_viewers: 7,
                }],
                &snapshots,
                0,
                TransactionLists::new(),
                Some(reservation),
            )
            .err().unwrap();

        assert_eq!(
            error.error(),
            &SharedVoxelDataMutationError::PreparedTransactionCapacityReservationFailed {
                reservation,
            }
        );
        let (_, operations) = error.into_parts();
        assert_insert_operation_identity(&operations, inserted, identity);
        assert!(!shared.with_lod_map(0, |map| map.has_block(inserted.position)));
        assert_eq!(
            shared.key_revision(inserted.position, 0),
            Some(VoxelDataKeyRevision::Tombstone(0))
        );
    }
}

#[test]
fn snapshot_transaction_requires_the_exact_mutating_and_observed_key_set() {
    let cases = [
        // A duplicate observed key is invalid even though the mutating key
        // is present.
        (vec![0, 1, 0], vec![1]),
        // The observed keys interleave one mutating key while another
        // mutating key is missing.
        (vec![0, 1, 2], vec![1, 3]),
        // Equal cardinality must not be mistaken for equal key sets.
        (vec![0, 2], vec![1, 3]),
    ];

    for (snapshot_xs, operation_xs) in cases {
        let mut shared = make_shared_data_with_lods(1);
        let preview = shared.begin_transaction_preview();
        let mut identities = Vec::new();
        let mut operations = Vec::new();
        for x in operation_xs {
            let location = location(Vector3i::new(x, 0, 0), 0);
            let block = make_tagged_lod_block(110 + x as u64, 0);
            identities.push((location, block_buffer_identity(&block)));
            operations.push(SharedVoxelDataTransactionOperation::Insert {
                location,
                block,
                final_viewers: 1,
            });
        }
        let snapshots = snapshot_xs
            .into_iter()
            .map(|x| {
                preview
                    .block_snapshot(&shared, location(Vector3i::new(x, 0, 0), 0))
                    .unwrap()
            })
            .collect::<Vec<_>>();

        let error = preview
            .prepare_transaction(&shared, operations, &snapshots)
            .err().unwrap();

        assert_eq!(
            error.error(),
            &SharedVoxelDataMutationError::PreparedTransactionPreviewSetMismatch
        );
        let (_, operations) = error.into_parts();
        assert_eq!(operations.len(), identities.len());
        for (location, identity) in identities {
            assert_insert_operation_identity(&operations, location, identity);
            assert!(!shared.with_lod_map(0, |map| map.has_block(location.position)));
            assert_eq!(
                shared.key_revision(location.position, 0),
                Some(VoxelDataKeyRevision::Tombstone(0))
            );
        }
    }
}

#[test]
fn snapshot_to_prepare_present_and_tombstone_mutations_do_not_write_and_retry_exact_owner() {
    for initially_present in [true, false] {
        let mut shared = make_shared_data_with_lods(1);
        let observed = location(Vector3i::zero(), 0);
        let inserted = location(Vector3i::new(10, 0, 0), 0);
        if initially_present {
            assert!(shared
                .try_set_block(observed.position, make_tagged_lod_block(121, 0))
                .unwrap());
        }
        let preview = shared.begin_transaction_preview();
        let snapshots = vec![
            preview.block_snapshot(&shared, observed).unwrap(),
            preview.block_snapshot(&shared, inserted).unwrap(),
        ];
        let block = make_tagged_lod_block(122, 0);
        let identity = block_buffer_identity(&block);
        let operations = vec![SharedVoxelDataTransactionOperation::Insert {
            location: inserted,
            block,
            final_viewers: 4,
        }];

        if initially_present {
            assert!(shared
                .try_set_voxel_checked(123, Vector3i::zero(), ChannelId::Type.index())
                .unwrap());
        } else {
            assert!(shared
                .try_set_block(observed.position, make_tagged_lod_block(124, 0))
                .unwrap());
        }

        let error = preview
            .prepare_transaction(&shared, operations, &snapshots)
            .err().unwrap();
        assert!(matches!(
            error.error(),
            SharedVoxelDataMutationError::ConcurrentDataMutation {
                position,
                lod_index: 0,
                ..
            } if *position == observed.position
        ));
        let (_, operations) = error.into_parts();
        assert_insert_operation_identity(&operations, inserted, identity);
        assert!(!shared.with_lod_map(0, |map| map.has_block(inserted.position)));
        assert_eq!(
            shared.key_revision(inserted.position, 0),
            Some(VoxelDataKeyRevision::Tombstone(0))
        );

        let retry_preview = shared.begin_transaction_preview();
        let retry_snapshots = vec![
            retry_preview.block_snapshot(&shared, observed).unwrap(),
            retry_preview.block_snapshot(&shared, inserted).unwrap(),
        ];
        let mut retry = retry_preview
            .prepare_transaction(&shared, operations, &retry_snapshots)
            .unwrap();
        assert_eq!(
            block_buffer_identity(retry.inserted_block(inserted).unwrap()),
            identity
        );
        retry.commit(&mut shared).unwrap();
        assert_eq!(
            shared.with_lod_map(0, |map| {
                block_buffer_identity(map.get_block(inserted.position).unwrap())
            }),
            identity
        );
    }
}

#[test]
fn prepare_to_commit_present_and_tombstone_mutations_do_not_write_and_retry_exact_owner() {
    for initially_present in [true, false] {
        let mut shared = make_shared_data_with_lods(1);
        let observed = location(Vector3i::zero(), 0);
        let inserted = location(Vector3i::new(10, 0, 0), 0);
        if initially_present {
            assert!(shared
                .try_set_block(observed.position, make_tagged_lod_block(131, 0))
                .unwrap());
        }
        let preview = shared.begin_transaction_preview();
        let snapshots = vec![
            preview.block_snapshot(&shared, observed).unwrap(),
            preview.block_snapshot(&shared, inserted).unwrap(),
        ];
        let block = make_tagged_lod_block(132, 0);
        let identity = block_buffer_identity(&block);
        let mut prepared = preview
            .prepare_transaction(
                &shared, vec![SharedVoxelDataTransactionOperation::Insert {
                    location: inserted,
                    block,
                    final_viewers: 5,
                }],
                &snapshots,
            )
            .unwrap();

        if initially_present {
            assert!(shared
                .try_set_voxel_checked(133, Vector3i::zero(), ChannelId::Type.index())
                .unwrap());
        } else {
            assert!(shared
                .try_set_block(observed.position, make_tagged_lod_block(134, 0))
                .unwrap());
        }

        assert!(matches!(
            prepared.commit(&mut shared),
            Err(SharedVoxelDataMutationError::ConcurrentDataMutation {
                position,
                lod_index: 0,
                ..
            }) if position == observed.position
        ));
        assert_eq!(
            block_buffer_identity(prepared.inserted_block(inserted).unwrap()),
            identity
        );
        assert!(!shared.with_lod_map(0, |map| map.has_block(inserted.position)));
        assert_eq!(
            shared.key_revision(inserted.position, 0),
            Some(VoxelDataKeyRevision::Tombstone(0))
        );

        let operations = prepared.into_operations().unwrap();
        assert_insert_operation_identity(&operations, inserted, identity);
        let retry_preview = shared.begin_transaction_preview();
        let retry_snapshots = vec![
            retry_preview.block_snapshot(&shared, observed).unwrap(),
            retry_preview.block_snapshot(&shared, inserted).unwrap(),
        ];
        let mut retry = retry_preview
            .prepare_transaction(&shared, operations, &retry_snapshots)
            .unwrap();
        retry.commit(&mut shared).unwrap();
        assert_eq!(
            shared.with_lod_map(0, |map| {
                block_buffer_identity(map.get_block(inserted.position).unwrap())
            }),
            identity
        );
    }
}

#[test]
fn observation_only_publication_fence_blocks_region_and_map_without_advancing_revision() {
    let mut shared = make_shared_data_with_lods(1);
    let observed = location(Vector3i::new(2, 0, 0), 0);
    assert!(shared
        .try_set_block(observed.position, make_tagged_lod_block(141, 0))
        .unwrap());
    let revision_before = shared.key_revision(observed.position, 0).unwrap();
    let preview = shared.begin_transaction_preview();
    let snapshots = vec![preview.block_snapshot(&shared, observed).unwrap()];
    let mut prepared = preview
        .prepare_transaction(&shared, Vec::new(), &snapshots)
        .unwrap();

    let fence = prepared
        .commit_holding_publication_fence(&mut shared)
        .unwrap();

    assert!(fence
        .data()
        .with_lod_map(0, |map| map.has_block(observed.position)));

    let outcome = fence.finish();

    assert!(outcome.removed_blocks().is_empty());
    assert_eq!(
        shared.key_revision(observed.position, 0),
        Some(revision_before)
    );
    let voxel_box = Box3i::new(observed.position.times(16), Vector3i::splat(16));
    assert!(shared.try_read_region(0, voxel_box).is_some());
    assert!(shared.try_lod_map_read(0).is_some());
    assert!(shared.try_lod_map_write(0).is_some());
}

#[test]
fn observation_only_multi_lod_live_spatial_failure_restores_every_batch_for_retry() {
    let mut shared = make_shared_data_with_lods(2);
    let lod0 = location(Vector3i::new(1, 0, 0), 0);
    let lod1 = location(Vector3i::new(2, 0, 0), 1);
    assert!(shared
        .try_set_block(lod0.position, make_tagged_lod_block(151, 0))
        .unwrap());
    assert!(shared
        .try_set_block(lod1.position, make_tagged_lod_block(152, 1))
        .unwrap());
    let revisions_before = [
        shared.key_revision(lod0.position, 0).unwrap(),
        shared.key_revision(lod1.position, 1).unwrap(),
    ];
    let preview = shared.begin_transaction_preview();
    let snapshots = vec![
        preview.block_snapshot(&shared, lod1).unwrap(),
        preview.block_snapshot(&shared, lod0).unwrap(),
    ];
    let mut prepared = preview
        .prepare_transaction(&shared, Vec::new(), &snapshots)
        .unwrap();

    assert_eq!(
        commit_without_room(
            &mut prepared,
            &mut shared,
            SharedVoxelDataTransactionReservation::LiveSpatialRegistry,
        ),
        SharedVoxelDataMutationError::PreparedTransactionCapacityReservationFailed {
            reservation: SharedVoxelDataTransactionReservation::LiveSpatialRegistry,
        }
    );
    assert_eq!(shared.locked_region_count(0), 0);
    assert_eq!(shared.locked_region_count(1), 0);
    assert_eq!(
        shared.key_revision(lod0.position, 0),
        Some(revisions_before[0])
    );
    assert_eq!(
        shared.key_revision(lod1.position, 1),
        Some(revisions_before[1])
    );

    assert_eq!(prepared.write_regions().len(), 2);
    let fence = prepared
        .commit_holding_publication_fence(&mut shared)
        .unwrap();
    fence.finish();

    assert_eq!(shared.locked_region_count(0), 0);
    assert_eq!(shared.locked_region_count(1), 0);
    assert_eq!(
        shared.key_revision(lod0.position, 0),
        Some(revisions_before[0])
    );
    assert_eq!(
        shared.key_revision(lod1.position, 1),
        Some(revisions_before[1])
    );
}

#[test]
fn observation_revalidation_rejects_every_same_revision_raw_metadata_change() {
    #[derive(Clone, Copy)]
    enum RawMutation {
        Viewers,
        Modified,
        Edited,
        HasVoxels,
    }

    for mutation in [
        RawMutation::Viewers,
        RawMutation::Modified,
        RawMutation::Edited,
        RawMutation::HasVoxels,
    ] {
        let mut shared = make_shared_data_with_lods(1);
        let observed = location(Vector3i::zero(), 0);
        let inserted = location(Vector3i::new(10, 0, 0), 0);
        assert!(shared
            .try_set_block(observed.position, make_tagged_lod_block(161, 0))
            .unwrap());
        let revision_before = shared.key_revision(observed.position, 0).unwrap();
        let preview = shared.begin_transaction_preview();
        let snapshots = vec![
            preview.block_snapshot(&shared, observed).unwrap(),
            preview.block_snapshot(&shared, inserted).unwrap(),
        ];
        let block = make_tagged_lod_block(162, 0);
        let identity = block_buffer_identity(&block);
        let mut prepared = preview
            .prepare_transaction(
                &shared, vec![SharedVoxelDataTransactionOperation::Insert {
                    location: inserted,
                    block,
                    final_viewers: 6,
                }],
                &snapshots,
            )
            .unwrap();

        with_map_mut(&mut shared, 0, |map| {
            let block = map.get_block_mut(observed.position).unwrap();
            match mutation {
                RawMutation::Viewers => block.viewers.set_exact(1),
                RawMutation::Modified => block.set_modified(true),
                RawMutation::Edited => block.set_edited(true),
                RawMutation::HasVoxels => block.clear_voxels(),
            }
        });
        assert_eq!(
            shared.key_revision(observed.position, 0),
            Some(revision_before),
            "the raw test mutation must exercise metadata revalidation, not revision revalidation"
        );

        let (actual_viewers, actual_modified, actual_edited, actual_has_voxels) = match mutation
        {
            RawMutation::Viewers => (1, false, false, true),
            RawMutation::Modified => (0, true, false, true),
            RawMutation::Edited => (0, false, true, true),
            RawMutation::HasVoxels => (0, false, false, false),
        };
        assert_eq!(
            prepared.commit(&mut shared).err().unwrap(),
            SharedVoxelDataMutationError::PreparedTransactionConcurrentBlockState {
                location: observed,
                expected_viewers: 0,
                actual_viewers,
                expected_modified: false,
                actual_modified,
                expected_edited: false,
                actual_edited,
                expected_has_voxels: true,
                actual_has_voxels,
            }
        );
        assert_eq!(
            block_buffer_identity(prepared.inserted_block(inserted).unwrap()),
            identity
        );
        assert!(!shared.with_lod_map(0, |map| map.has_block(inserted.position)));

        let operations = prepared.into_operations().unwrap();
        assert_insert_operation_identity(&operations, inserted, identity);
        let retry_preview = shared.begin_transaction_preview();
        let retry_snapshots = vec![
            retry_preview.block_snapshot(&shared, observed).unwrap(),
            retry_preview.block_snapshot(&shared, inserted).unwrap(),
        ];
        let mut retry = retry_preview
            .prepare_transaction(&shared, operations, &retry_snapshots)
            .unwrap();
        retry.commit(&mut shared).unwrap();
        assert_eq!(
            shared.with_lod_map(0, |map| {
                block_buffer_identity(map.get_block(inserted.position).unwrap())
            }),
            identity
        );
    }
}

#[test]
fn preview_revalidation_rejects_every_same_revision_raw_metadata_change() {
    for mutation_index in 0..4 {
        let mut shared = make_shared_data_with_lods(1);
        let observed = location(Vector3i::zero(), 0);
        let inserted = location(Vector3i::new(10, 0, 0), 0);
        assert!(shared
            .try_set_block(observed.position, make_tagged_lod_block(166, 0))
            .unwrap());
        let revision_before = shared.key_revision(observed.position, 0).unwrap();
        let preview = shared.begin_transaction_preview();
        let snapshots = vec![
            preview.block_snapshot(&shared, observed).unwrap(),
            preview.block_snapshot(&shared, inserted).unwrap(),
        ];
        let block = make_tagged_lod_block(167, 0);
        let identity = block_buffer_identity(&block);
        let operations = vec![SharedVoxelDataTransactionOperation::Insert {
            location: inserted,
            block,
            final_viewers: 8,
        }];

        with_map_mut(&mut shared, 0, |map| {
            let block = map.get_block_mut(observed.position).unwrap();
            match mutation_index {
                0 => block.viewers.set_exact(1),
                1 => block.set_modified(true),
                2 => block.set_edited(true),
                3 => block.clear_voxels(),
                _ => unreachable!(),
            }
        });
        assert_eq!(
            shared.key_revision(observed.position, 0),
            Some(revision_before)
        );

        let error = preview
            .prepare_transaction(&shared, operations, &snapshots)
            .err().unwrap();
        assert_eq!(
            error.error(),
            &SharedVoxelDataMutationError::ConcurrentDataMutation {
                position: observed.position,
                lod_index: 0,
                expected_revision: revision_before,
                actual_revision: revision_before,
            }
        );
        let (_, operations) = error.into_parts();
        assert_insert_operation_identity(&operations, inserted, identity);
        assert!(!shared.with_lod_map(0, |map| map.has_block(inserted.position)));

        let retry_preview = shared.begin_transaction_preview();
        let retry_snapshots = vec![
            retry_preview.block_snapshot(&shared, observed).unwrap(),
            retry_preview.block_snapshot(&shared, inserted).unwrap(),
        ];
        let mut retry = retry_preview
            .prepare_transaction(&shared, operations, &retry_snapshots)
            .unwrap();
        retry.commit(&mut shared).unwrap();
        assert_eq!(
            shared.with_lod_map(0, |map| {
                block_buffer_identity(map.get_block(inserted.position).unwrap())
            }),
            identity
        );
    }
}

#[test]
fn publication_fence_keeps_region_exclusive_until_matching_state_marker() {
    let mut shared = make_shared_data_with_lods(1);
    let first = location(Vector3i::new(0, 0, 0), 0);
    let second = location(Vector3i::new(1, 0, 0), 0);
    assert!(shared
        .try_set_block(first.position, make_tagged_lod_block(111, 0))
        .unwrap());
    assert!(shared
        .try_set_block(second.position, make_tagged_lod_block(112, 0))
        .unwrap());
    let mut prepared = shared
        .prepare_transaction(vec![
            SharedVoxelDataTransactionOperation::SetViewersExact {
                location: second,
                final_viewers: 22,
            },
            SharedVoxelDataTransactionOperation::SetViewersExact {
                location: first,
                final_viewers: 11,
            },
        ])
        .unwrap();

    let fence = prepared.commit_holding_publication_fence(&mut shared).unwrap();
    let guarded_map = fence.data().try_lod_map_read(0).unwrap();
    assert_eq!(
        (
            guarded_map
                .get_block(first.position)
                .unwrap()
                .viewers
                .get(),
            guarded_map
                .get_block(second.position)
                .unwrap()
                .viewers
                .get(),
        ),
        (11, 22)
    );
    let voxel_box = Box3i::new(Vector3i::zero(), Vector3i::new(32, 16, 16));

    let matching_state_marker = std::cell::Cell::new(false);
    matching_state_marker.set(true);
    fence.finish();

    let _reader = shared.try_read_region(0, voxel_box).unwrap();
    assert!(matching_state_marker.get());
    assert_eq!(
        shared.with_lod_map(0, |map| (
            map.get_block(first.position).unwrap().viewers.get(),
            map.get_block(second.position).unwrap().viewers.get(),
        )),
        (11, 22)
    );
}

#[test]
fn publication_fence_finish_returns_exact_clean_and_dirty_owners_after_release() {
    let mut shared = make_shared_data_with_lods(2);
    let clean = location(Vector3i::new(0, 0, 0), 0);
    let dirty = location(Vector3i::new(1, 0, 0), 1);
    let clean_block = make_tagged_lod_block(121, 0);
    let clean_identity = block_buffer_identity(&clean_block);
    let mut dirty_block = make_tagged_lod_block(122, 1);
    dirty_block.set_modified(true);
    dirty_block.set_edited(true);
    dirty_block.set_needs_lodding(true);
    let dirty_identity = block_buffer_identity(&dirty_block);
    assert!(shared.try_set_block(clean.position, clean_block).unwrap());
    assert!(shared.try_set_block(dirty.position, dirty_block).unwrap());
    let mut prepared = shared
        .prepare_transaction(vec![
            SharedVoxelDataTransactionOperation::Remove { location: dirty },
            SharedVoxelDataTransactionOperation::Remove { location: clean },
        ])
        .unwrap();

    let fence = prepared.commit_holding_publication_fence(&mut shared).unwrap();
    assert_eq!(fence.removed_blocks().len(), 2);
    let outcome = fence.finish();

    assert!(shared.try_lod_map_write(0).is_some());
    assert!(shared.try_lod_map_write(1).is_some());
    assert!(shared
        .try_write_region(0, Box3i::new(clean.position.times(16), Vector3i::splat(16)))
        .is_some());
    assert!(shared
        .try_write_region(1, Box3i::new(dirty.position.times(32), Vector3i::splat(32)))
        .is_some());
    assert_eq!(outcome.removed_blocks().len(), 2);
    let clean_removed = outcome
        .removed_blocks()
        .iter()
        .find(|removed| removed.location() == clean)
        .unwrap();
    assert_eq!(block_buffer_identity(clean_removed.block()), clean_identity);
    assert_eq!(
        clean_removed
            .block()
            .voxels()
            .get_voxel(0, 0, 0, ChannelId::Type.index()),
        121
    );
    assert!(!clean_removed.block().is_modified());
    assert!(!clean_removed.block().is_edited());
    let dirty_removed = outcome
        .removed_blocks()
        .iter()
        .find(|removed| removed.location() == dirty)
        .unwrap();
    assert_eq!(block_buffer_identity(dirty_removed.block()), dirty_identity);
    assert_eq!(
        dirty_removed
            .block()
            .voxels()
            .get_voxel(0, 0, 0, ChannelId::Type.index()),
        122
    );
    assert!(dirty_removed.block().is_modified());
    assert!(dirty_removed.block().is_edited());
    assert!(dirty_removed.block().needs_lodding());
}

#[test]
fn publication_fence_take_removed_blocks_is_allocation_free_and_finish_is_empty() {
    let mut shared = make_shared_data_with_lods(1);
    let removed_location = location(Vector3i::zero(), 0);
    let block = make_tagged_lod_block(131, 0);
    let buffer_identity = block_buffer_identity(&block);
    assert!(shared
        .try_set_block(removed_location.position, block)
        .unwrap());
    let mut prepared = shared
        .prepare_transaction(vec![SharedVoxelDataTransactionOperation::Remove {
            location: removed_location,
        }])
        .unwrap();

    let mut fence = prepared.commit_holding_publication_fence(&mut shared).unwrap();
    let vector_identity = fence.removed_blocks().as_ptr() as usize;
    let vector_capacity = fence.removed_blocks().capacity();
    let removed = fence.take_removed_blocks();
    assert_eq!(removed.as_ptr() as usize, vector_identity);
    assert_eq!(removed.capacity(), vector_capacity);
    assert_eq!(block_buffer_identity(removed[0].block()), buffer_identity);
    let outcome = fence.finish();

    assert!(outcome.removed_blocks().is_empty());
    assert_eq!(removed.len(), 1);
    assert_eq!(removed[0].location(), removed_location);
}

#[test]
fn publication_fence_preserves_prewrite_failure_retry_ownership() {
    #[derive(Clone, Copy)]
    enum Failure {
        Settings,
        Key,
        LiveSpatialRegistry,
        Reservation(SharedVoxelDataTransactionReservation),
    }

    for failure in [
        Failure::Settings,
        Failure::Key,
        Failure::LiveSpatialRegistry,
        Failure::Reservation(SharedVoxelDataTransactionReservation::LiveMap),
        Failure::Reservation(SharedVoxelDataTransactionReservation::LiveKeyRevisions),
    ] {
        let mut shared = make_shared_data_with_lods(1);
        let resident = location(Vector3i::zero(), 0);
        let inserted = location(Vector3i::new(1, 0, 0), 0);
        assert!(shared
            .try_set_block(resident.position, make_tagged_lod_block(151, 0))
            .unwrap());
        let insert = make_tagged_lod_block(152, 0);
        let insert_identity = block_buffer_identity(&insert);
        let mut prepared = shared
            .prepare_transaction(vec![
                SharedVoxelDataTransactionOperation::Remove { location: resident },
                SharedVoxelDataTransactionOperation::Insert {
                    location: inserted,
                    block: insert,
                    final_viewers: 3,
                },
            ])
            .unwrap();

        let expected_error = match failure {
            Failure::Settings => {
                shared.set_settings_revision(1);
                SharedVoxelDataMutationError::ConcurrentSettingsMutation {
                    expected_revision: 0,
                    actual_revision: 1,
                }
            }
            Failure::Key => {
                shared
                    .view_area(
                        Box3i::new(resident.position, Vector3i::splat(1)),
                        0,
                        None,
                        None,
                        None,
                    )
                    .unwrap();
                SharedVoxelDataMutationError::ConcurrentDataMutation {
                    position: resident.position,
                    lod_index: 0,
                    expected_revision: VoxelDataKeyRevision::Present(1),
                    actual_revision: VoxelDataKeyRevision::Present(2),
                }
            }
            Failure::LiveSpatialRegistry => {
                SharedVoxelDataMutationError::PreparedTransactionCapacityReservationFailed {
                    reservation: SharedVoxelDataTransactionReservation::LiveSpatialRegistry,
                }
            }
            Failure::Reservation(reservation) => {
                SharedVoxelDataMutationError::PreparedTransactionCapacityReservationFailed {
                    reservation,
                }
            }
        };

        let without_room = match failure {
            Failure::LiveSpatialRegistry => {
                Some(SharedVoxelDataTransactionReservation::LiveSpatialRegistry)
            }
            Failure::Reservation(reservation) => Some(reservation),
            _ => None,
        };
        let actual_error = match prepared.commit_reserved(&mut shared, without_room) {
            Ok(_) => panic!("prewrite failure unexpectedly returned a publication fence"),
            Err(error) => error,
        };
        assert_eq!(actual_error, expected_error);
        assert_eq!(
            block_buffer_identity(prepared.inserted_block(inserted).unwrap()),
            insert_identity
        );
        assert!(shared.with_lod_map(0, |map| map.has_block(resident.position)));
        assert!(!shared.with_lod_map(0, |map| map.has_block(inserted.position)));

        match failure {
            Failure::Settings => shared.set_settings_revision(0),
            Failure::Key => with_map_mut(&mut shared, 0, |map| {
                map.get_block_mut(resident.position)
                    .unwrap()
                    .viewers
                    .set_exact(0);
                map.commit_key_revision(resident.position, 1);
            }),
            _ => {}
        }
        prepared
            .commit_holding_publication_fence(&mut shared)
            .unwrap()
            .finish();
        assert_eq!(
            shared.with_lod_map(0, |map| {
                block_buffer_identity(map.get_block(inserted.position).unwrap())
            }),
            insert_identity
        );
    }
}

#[test]
fn legacy_commit_delegates_to_fence_without_behavior_change() {
    let mut shared = make_shared_data_with_lods(1);
    let removed_location = location(Vector3i::zero(), 0);
    let block = make_tagged_lod_block(161, 0);
    let identity = block_buffer_identity(&block);
    assert!(shared
        .try_set_block(removed_location.position, block)
        .unwrap());
    let mut prepared = shared
        .prepare_transaction(vec![SharedVoxelDataTransactionOperation::Remove {
            location: removed_location,
        }])
        .unwrap();

    let outcome = prepared.commit(&mut shared).unwrap();
    assert_eq!(outcome.removed_blocks().len(), 1);
    assert_eq!(outcome.removed_blocks()[0].location(), removed_location);
    assert_eq!(
        block_buffer_identity(outcome.removed_blocks()[0].block()),
        identity
    );
    assert_eq!(
        prepared.commit(&mut shared).err().unwrap(),
        SharedVoxelDataMutationError::PreparedTransactionAlreadyCommitted
    );
}

#[test]
fn publication_fence_allows_split_borrow_outer_state_mutation() {
    struct PreparedOuterStateFixture {
        data_transaction: PreparedSharedVoxelDataTransaction,
        matching_state_marker: Option<BlockLocation>,
    }

    let mut shared = make_shared_data_with_lods(1);
    let changed = location(Vector3i::zero(), 0);
    assert!(shared
        .try_set_block(changed.position, make_tagged_lod_block(171, 0))
        .unwrap());
    let mut outer = PreparedOuterStateFixture {
        data_transaction: shared
            .prepare_transaction(vec![SharedVoxelDataTransactionOperation::SetViewersExact {
                location: changed,
                final_viewers: 17,
            }])
            .unwrap(),
        matching_state_marker: None,
    };

    let fence = outer
        .data_transaction
        .commit_holding_publication_fence(&mut shared)
        .unwrap();
    outer.matching_state_marker = Some(changed);
    assert!(fence.removed_blocks().is_empty());
    fence.finish();

    assert_eq!(outer.matching_state_marker, Some(changed));
    assert_eq!(
        shared.with_lod_map(0, |map| map
            .get_block(changed.position)
            .unwrap()
            .viewers
            .get()),
        17
    );
}

#[test]
fn prepared_batch_sets_exact_viewer_totals_across_lods_atomically() {
    let mut shared = make_shared_data_with_lods(3);
    let locations = [
        location(Vector3i::new(5, 0, 0), 2),
        location(Vector3i::new(-2, 1, 0), 0),
        location(Vector3i::new(1, -3, 4), 1),
    ];
    for (index, location) in locations.iter().enumerate() {
        assert!(shared
            .try_set_block(
                location.position,
                make_tagged_lod_block(10 + index as u64, location.lod_index),
            )
            .unwrap());
    }

    let operations = vec![
        SharedVoxelDataTransactionOperation::SetViewersExact {
            location: locations[0],
            final_viewers: 7,
        },
        SharedVoxelDataTransactionOperation::SetViewersExact {
            location: locations[2],
            final_viewers: 3,
        },
        SharedVoxelDataTransactionOperation::SetViewersExact {
            location: locations[1],
            final_viewers: 5,
        },
    ];
    let mut prepared = shared.prepare_transaction(operations).unwrap();
    let outcome = prepared.commit(&mut shared).unwrap();

    assert!(outcome.removed_blocks().is_empty());
    for (location, expected_viewers) in locations.into_iter().zip([7, 5, 3]) {
        assert_eq!(
            shared.with_lod_map(usize::from(location.lod_index), |map| map
                .get_block(location.position)
                .unwrap()
                .viewers
                .get()),
            expected_viewers
        );
        assert_eq!(
            shared.key_revision(location.position, usize::from(location.lod_index)),
            Some(VoxelDataKeyRevision::Present(2))
        );
    }
    assert_eq!(
        prepared.commit(&mut shared).err().unwrap(),
        SharedVoxelDataMutationError::PreparedTransactionAlreadyCommitted
    );
}

#[test]
fn prepared_batch_same_key_conflict_rolls_back_all_and_retains_inputs() {
    let mut shared = make_shared_data_with_lods(2);
    let conflicted = location(Vector3i::new(0, 0, 0), 0);
    let untouched = location(Vector3i::new(1, 0, 0), 0);
    let inserted = location(Vector3i::new(2, 0, 0), 1);
    assert!(shared
        .try_set_block(conflicted.position, make_tagged_lod_block(11, 0))
        .unwrap());
    assert!(shared
        .try_set_block(untouched.position, make_tagged_lod_block(12, 0))
        .unwrap());
    let insert_block = make_tagged_lod_block(99, 1);
    let insert_identity = block_buffer_identity(&insert_block);
    let operations = vec![
        SharedVoxelDataTransactionOperation::SetViewersExact {
            location: untouched,
            final_viewers: 6,
        },
        SharedVoxelDataTransactionOperation::Insert {
            location: inserted,
            block: insert_block,
            final_viewers: 4,
        },
        SharedVoxelDataTransactionOperation::SetViewersExact {
            location: conflicted,
            final_viewers: 5,
        },
    ];
    let mut prepared = shared.prepare_transaction(operations).unwrap();

    shared
        .view_area(
            Box3i::new(conflicted.position, Vector3i::splat(1)),
            0,
            None,
            None,
            None,
        )
        .unwrap();
    assert_eq!(
        prepared.commit(&mut shared).err().unwrap(),
        SharedVoxelDataMutationError::ConcurrentDataMutation {
            position: conflicted.position,
            lod_index: 0,
            expected_revision: VoxelDataKeyRevision::Present(1),
            actual_revision: VoxelDataKeyRevision::Present(2),
        }
    );
    assert_eq!(
        shared.with_lod_map(0, |map| map
            .get_block(conflicted.position)
            .unwrap()
            .viewers
            .get()),
        1
    );
    assert_eq!(
        shared.with_lod_map(0, |map| map
            .get_block(untouched.position)
            .unwrap()
            .viewers
            .get()),
        0
    );
    assert!(!shared.with_lod_map(1, |map| map.has_block(inserted.position)));
    assert_eq!(
        block_buffer_identity(prepared.inserted_block(inserted).unwrap()),
        insert_identity
    );

    let operations = prepared.into_operations().unwrap();
    let mut fresh = shared.prepare_transaction(operations).unwrap();
    fresh.commit(&mut shared).unwrap();
    assert_eq!(
        shared.with_lod_map(0, |map| map
            .get_block(conflicted.position)
            .unwrap()
            .viewers
            .get()),
        5
    );
    assert_eq!(
        shared.with_lod_map(0, |map| map
            .get_block(untouched.position)
            .unwrap()
            .viewers
            .get()),
        6
    );
    assert_eq!(
        shared.with_lod_map(1, |map| {
            let block = map.get_block(inserted.position).unwrap();
            assert_eq!(block.viewers.get(), 4);
            block_buffer_identity(block)
        }),
        insert_identity
    );
    assert_eq!(
        fresh.commit(&mut shared).err().unwrap(),
        SharedVoxelDataMutationError::PreparedTransactionAlreadyCommitted
    );
}

#[test]
fn prepared_batch_disjoint_key_write_does_not_false_conflict() {
    let mut shared = make_shared_data_with_lods(1);
    let prepared_location = location(Vector3i::new(0, 0, 0), 0);
    let disjoint_location = location(Vector3i::new(4, 0, 0), 0);
    assert!(shared
        .try_set_block(prepared_location.position, make_tagged_lod_block(1, 0))
        .unwrap());
    assert!(shared
        .try_set_block(disjoint_location.position, make_tagged_lod_block(2, 0))
        .unwrap());
    let mut prepared = shared
        .prepare_transaction(vec![SharedVoxelDataTransactionOperation::SetViewersExact {
            location: prepared_location,
            final_viewers: 8,
        }])
        .unwrap();

    shared
        .view_area(
            Box3i::new(disjoint_location.position, Vector3i::splat(1)),
            0,
            None,
            None,
            None,
        )
        .unwrap();
    prepared.commit(&mut shared).unwrap();

    assert_eq!(
        shared.with_lod_map(0, |map| map
            .get_block(prepared_location.position)
            .unwrap()
            .viewers
            .get()),
        8
    );
    assert_eq!(
        shared.with_lod_map(0, |map| map
            .get_block(disjoint_location.position)
            .unwrap()
            .viewers
            .get()),
        1
    );
    assert_eq!(
        shared.key_revision(prepared_location.position, 0),
        Some(VoxelDataKeyRevision::Present(2))
    );
    assert_eq!(
        shared.key_revision(disjoint_location.position, 0),
        Some(VoxelDataKeyRevision::Present(2))
    );
}

#[test]
fn prepared_batch_settings_conflict_and_key_overflow_are_non_mutating() {
    let mut shared = make_shared_data_with_lods(1);
    let present = location(Vector3i::zero(), 0);
    assert!(shared
        .try_set_block(present.position, make_tagged_lod_block(7, 0))
        .unwrap());
    let mut prepared = shared
        .prepare_transaction(vec![SharedVoxelDataTransactionOperation::SetViewersExact {
            location: present,
            final_viewers: 9,
        }])
        .unwrap();
    let generator: SharedVoxelGenerator = Arc::new(RecordingGenerator::default());
    shared.set_generator(Some(generator)).unwrap();
    assert_eq!(
        prepared.commit(&mut shared).err().unwrap(),
        SharedVoxelDataMutationError::ConcurrentSettingsMutation {
            expected_revision: 0,
            actual_revision: 1,
        }
    );
    assert_eq!(
        shared.with_lod_map(0, |map| map
            .get_block(present.position)
            .unwrap()
            .viewers
            .get()),
        0
    );
    assert_eq!(
        shared.key_revision(present.position, 0),
        Some(VoxelDataKeyRevision::Present(1))
    );

    let overflowed = location(Vector3i::new(3, 0, 0), 0);
    with_map_mut(&mut shared, 0, |map| {
        map.commit_key_revision(overflowed.position, u64::MAX);
    });
    let insert = make_tagged_lod_block(55, 0);
    let identity = block_buffer_identity(&insert);
    let error = shared
        .prepare_transaction(vec![SharedVoxelDataTransactionOperation::Insert {
            location: overflowed,
            block: insert,
            final_viewers: 1,
        }])
        .err().unwrap();
    assert_eq!(
        error.error(),
        &SharedVoxelDataMutationError::KeyRevisionOverflow {
            position: overflowed.position,
            lod_index: 0,
        }
    );
    let (_, operations) = error.into_parts();
    let SharedVoxelDataTransactionOperation::Insert { block, .. } = &operations[0] else {
        panic!("insert operation must be retained");
    };
    assert_eq!(block_buffer_identity(block), identity);
    assert!(!shared.with_lod_map(0, |map| map.has_block(overflowed.position)));
    assert_eq!(
        shared.key_revision(overflowed.position, 0),
        Some(VoxelDataKeyRevision::Tombstone(u64::MAX))
    );
}

#[test]
fn prepared_insert_adopts_exact_block_and_preserves_pointer_across_retry() {
    let mut shared = make_shared_data_with_lods(1);
    let inserted = location(Vector3i::new(3, 2, 1), 0);
    let block = make_tagged_lod_block(71, 0);
    let identity = block_buffer_identity(&block);
    let mut prepared = shared
        .prepare_transaction(vec![SharedVoxelDataTransactionOperation::Insert {
            location: inserted,
            block,
            final_viewers: 12,
        }])
        .unwrap();
    assert_eq!(
        commit_without_room(
            &mut prepared,
            &mut shared,
            SharedVoxelDataTransactionReservation::LiveMap,
        ),
        SharedVoxelDataMutationError::PreparedTransactionCapacityReservationFailed {
            reservation: SharedVoxelDataTransactionReservation::LiveMap,
        }
    );
    assert_eq!(
        block_buffer_identity(prepared.inserted_block(inserted).unwrap()),
        identity
    );
    assert!(!shared.with_lod_map(0, |map| map.has_block(inserted.position)));
    prepared.commit(&mut shared).unwrap();
    shared.with_lod_map(0, |map| {
        let resident = map.get_block(inserted.position).unwrap();
        assert_eq!(resident.viewers.get(), 12);
        assert_eq!(block_buffer_identity(resident), identity);
        assert_eq!(
            resident
                .voxels()
                .get_voxel(0, 0, 0, ChannelId::Type.index()),
            71
        );
    });
    assert_eq!(
        prepared.commit(&mut shared).err().unwrap(),
        SharedVoxelDataMutationError::PreparedTransactionAlreadyCommitted
    );
}

#[test]
fn prepared_remove_returns_clean_and_dirty_blocks_after_guards_release() {
    let mut shared = make_shared_data_with_lods(2);
    let clean = location(Vector3i::new(0, 0, 0), 0);
    let dirty = location(Vector3i::new(1, 0, 0), 1);
    let clean_block = make_tagged_lod_block(21, 0);
    let clean_identity = block_buffer_identity(&clean_block);
    let mut dirty_block = make_tagged_lod_block(22, 1);
    dirty_block.set_modified(true);
    dirty_block.set_edited(true);
    dirty_block.set_needs_lodding(true);
    let dirty_identity = block_buffer_identity(&dirty_block);
    assert!(shared.try_set_block(clean.position, clean_block).unwrap());
    assert!(shared.try_set_block(dirty.position, dirty_block).unwrap());

    let mut prepared = shared
        .prepare_transaction(vec![
            SharedVoxelDataTransactionOperation::Remove { location: dirty },
            SharedVoxelDataTransactionOperation::Remove { location: clean },
        ])
        .unwrap();
    let outcome = prepared.commit(&mut shared).unwrap();

    assert!(shared.try_lod_map_write(0).is_some());
    assert!(shared.try_lod_map_write(1).is_some());
    assert!(!shared.with_lod_map(0, |map| map.has_block(clean.position)));
    assert!(!shared.with_lod_map(1, |map| map.has_block(dirty.position)));
    assert_eq!(outcome.removed_blocks().len(), 2);
    let clean_removed = outcome
        .removed_blocks()
        .iter()
        .find(|removed| removed.location() == clean)
        .unwrap();
    assert!(!clean_removed.block().is_modified());
    assert!(!clean_removed.block().is_edited());
    assert_eq!(block_buffer_identity(clean_removed.block()), clean_identity);
    let dirty_removed = outcome
        .removed_blocks()
        .iter()
        .find(|removed| removed.location() == dirty)
        .unwrap();
    assert!(dirty_removed.block().is_modified());
    assert!(dirty_removed.block().is_edited());
    assert!(dirty_removed.block().needs_lodding());
    assert_eq!(block_buffer_identity(dirty_removed.block()), dirty_identity);
    assert_eq!(
        shared.key_revision(clean.position, 0),
        Some(VoxelDataKeyRevision::Tombstone(2))
    );
    assert_eq!(
        shared.key_revision(dirty.position, 1),
        Some(VoxelDataKeyRevision::Tombstone(2))
    );
}

#[test]
fn prepared_replace_updates_one_key_once_and_retires_the_exact_old_owner() {
    let mut shared = make_shared_data_with_lods(1);
    let location = location(Vector3i::new(2, 0, 0), 0);
    let mut original = make_tagged_lod_block(201, 0);
    original.viewers.set_exact(3);
    original.set_modified(true);
    original.set_needs_lodding(true);
    let original_identity = block_buffer_identity(&original);
    assert!(shared.try_set_block(location.position, original).unwrap());
    let mut replacement = make_tagged_lod_block(202, 0);
    replacement.viewers.set_exact(7);
    replacement.set_edited(true);
    let replacement_identity = block_buffer_identity(&replacement);

    let mut prepared = shared
        .prepare_transaction(vec![SharedVoxelDataTransactionOperation::Replace {
            location,
            block: replacement,
        }])
        .unwrap();
    let outcome = prepared.commit(&mut shared).unwrap();

    assert_eq!(
        shared.key_revision(location.position, 0),
        Some(VoxelDataKeyRevision::Present(2))
    );
    shared.with_lod_map(0, |map| {
        let resident = map.get_block(location.position).unwrap();
        assert_eq!(block_buffer_identity(resident), replacement_identity);
        assert_eq!(resident.viewers.get(), 7);
        assert!(!resident.is_modified());
        assert!(resident.is_edited());
        assert!(!resident.needs_lodding());
        assert_eq!(
            resident
                .voxels()
                .get_voxel(0, 0, 0, ChannelId::Type.index()),
            202
        );
    });
    assert_eq!(outcome.removed_blocks().len(), 1);
    assert_eq!(outcome.removed_blocks()[0].location(), location);
    assert_eq!(outcome.removed_blocks()[0].block().viewers.get(), 3);
    assert!(outcome.removed_blocks()[0].block().is_modified());
    assert!(!outcome.removed_blocks()[0].block().is_edited());
    assert!(outcome.removed_blocks()[0].block().needs_lodding());
    assert_eq!(
        block_buffer_identity(outcome.removed_blocks()[0].block()),
        original_identity
    );
}

#[test]
fn prepared_replace_conflict_preserves_live_and_replacement_payload_identity() {
    let mut shared = make_shared_data_with_lods(1);
    let location = location(Vector3i::zero(), 0);
    let mut original = make_tagged_lod_block(211, 0);
    original.viewers.set_exact(4);
    original.set_modified(true);
    original.set_edited(true);
    let original_identity = block_buffer_identity(&original);
    assert!(shared.try_set_block(location.position, original).unwrap());
    let replacement = make_tagged_lod_block(212, 0);
    let replacement_identity = block_buffer_identity(&replacement);
    let mut prepared = shared
        .prepare_transaction(vec![SharedVoxelDataTransactionOperation::Replace {
            location,
            block: replacement,
        }])
        .unwrap();

    assert!(shared
        .try_set_voxel_checked(213, Vector3i::new(1, 1, 1), ChannelId::Type.index(),)
        .unwrap());
    assert_eq!(
        prepared.commit(&mut shared).err().unwrap(),
        SharedVoxelDataMutationError::ConcurrentDataMutation {
            position: location.position,
            lod_index: 0,
            expected_revision: VoxelDataKeyRevision::Present(1),
            actual_revision: VoxelDataKeyRevision::Present(2),
        }
    );
    assert_eq!(
        block_buffer_identity(prepared.owned_block(location).unwrap()),
        replacement_identity
    );
    assert_eq!(
        shared.key_revision(location.position, 0),
        Some(VoxelDataKeyRevision::Present(2))
    );
    shared.with_lod_map(0, |map| {
        let resident = map.get_block(location.position).unwrap();
        assert_eq!(block_buffer_identity(resident), original_identity);
        assert_eq!(resident.viewers.get(), 4);
        assert!(resident.is_modified());
        assert!(resident.is_edited());
        assert_eq!(
            resident
                .voxels()
                .get_voxel(1, 1, 1, ChannelId::Type.index()),
            213
        );
    });
}

#[test]
fn prepared_clear_modified_advances_revision_without_changing_voxels() {
    let mut shared = make_shared_data_with_lods(1);
    let location = location(Vector3i::new(-2, 0, 0), 0);
    let mut dirty = make_tagged_lod_block(221, 0);
    dirty.set_modified(true);
    dirty.set_edited(true);
    dirty.viewers.set_exact(5);
    let identity = block_buffer_identity(&dirty);
    assert!(shared.try_set_block(location.position, dirty).unwrap());
    let preview = shared.begin_transaction_preview();
    let snapshot = preview.block_snapshot(&shared, location).unwrap();
    assert_eq!(snapshot.revision(), VoxelDataKeyRevision::Present(1));
    assert!(snapshot.is_edited());

    let mut prepared = shared
        .prepare_transaction(vec![SharedVoxelDataTransactionOperation::ClearModified {
            location,
        }])
        .unwrap();
    let outcome = prepared.commit(&mut shared).unwrap();

    assert!(outcome.removed_blocks().is_empty());
    assert_eq!(
        shared.key_revision(location.position, 0),
        Some(VoxelDataKeyRevision::Present(2))
    );
    shared.with_lod_map(0, |map| {
        let resident = map.get_block(location.position).unwrap();
        assert_eq!(block_buffer_identity(resident), identity);
        assert!(!resident.is_modified());
        assert!(resident.is_edited());
        assert_eq!(resident.viewers.get(), 5);
        assert_eq!(
            resident
                .voxels()
                .get_voxel(0, 0, 0, ChannelId::Type.index()),
            221
        );
    });
}

#[test]
fn prepared_clear_modified_rejects_same_key_edit_after_snapshot() {
    let mut shared = make_shared_data_with_lods(1);
    let location = location(Vector3i::zero(), 0);
    let mut dirty = make_tagged_lod_block(231, 0);
    dirty.set_modified(true);
    dirty.set_edited(true);
    dirty.viewers.set_exact(6);
    let identity = block_buffer_identity(&dirty);
    assert!(shared.try_set_block(location.position, dirty).unwrap());
    let mut prepared = shared
        .prepare_transaction(vec![SharedVoxelDataTransactionOperation::ClearModified {
            location,
        }])
        .unwrap();

    assert!(shared
        .try_set_voxel_checked(232, Vector3i::new(1, 1, 1), ChannelId::Type.index(),)
        .unwrap());
    assert_eq!(
        prepared.commit(&mut shared).err().unwrap(),
        SharedVoxelDataMutationError::ConcurrentDataMutation {
            position: location.position,
            lod_index: 0,
            expected_revision: VoxelDataKeyRevision::Present(1),
            actual_revision: VoxelDataKeyRevision::Present(2),
        }
    );
    assert_eq!(
        shared.key_revision(location.position, 0),
        Some(VoxelDataKeyRevision::Present(2))
    );
    shared.with_lod_map(0, |map| {
        let resident = map.get_block(location.position).unwrap();
        assert_eq!(block_buffer_identity(resident), identity);
        assert!(resident.is_modified());
        assert!(resident.is_edited());
        assert_eq!(resident.viewers.get(), 6);
        assert_eq!(
            resident
                .voxels()
                .get_voxel(1, 1, 1, ChannelId::Type.index()),
            232
        );
    });
}

#[test]
fn resident_dirty_snapshot_and_clear_commit_with_one_exact_block_revision() {
    let mut shared = make_shared_data_with_lods(1);
    let location = location(Vector3i::new(3, -1, 2), 0);
    let mut dirty = make_tagged_lod_block(233, 0);
    dirty.set_modified(true);
    dirty.set_edited(true);
    dirty.viewers.set_exact(7);
    let resident_identity = block_buffer_identity(&dirty);
    assert!(shared.try_set_block(location.position, dirty).unwrap());

    let preview = shared.begin_transaction_preview();
    let copies = preview.prepare_resident_dirty_copies(&shared).unwrap();
    let (operations, snapshots, payloads) = copies.into_parts();
    assert_eq!(operations.len(), 1);
    assert_eq!(snapshots.len(), 1);
    assert_eq!(payloads.len(), 1);
    assert_eq!(payloads[0].location, location);
    assert_eq!(payloads[0].block_revision, 1);
    assert_ne!(
        payloads[0].voxels.channel_bytes(0).as_ptr() as usize,
        resident_identity
    );
    assert_eq!(
        payloads[0]
            .voxels
            .get_voxel(0, 0, 0, ChannelId::Type.index()),
        233
    );

    let mut prepared = preview.prepare_transaction(&shared, operations, &snapshots).unwrap();
    prepared.commit(&mut shared).unwrap();

    assert_eq!(
        shared.key_revision(location.position, 0),
        Some(VoxelDataKeyRevision::Present(2))
    );
    shared.with_lod_map(0, |map| {
        let resident = map.get_block(location.position).unwrap();
        assert_eq!(block_buffer_identity(resident), resident_identity);
        assert!(!resident.is_modified());
        assert!(resident.is_edited());
        assert_eq!(resident.viewers.get(), 7);
    });
}

#[test]
fn resident_dirty_copy_vs_edit_conflict_preserves_new_edit_dirty() {
    let mut shared = make_shared_data_with_lods(1);
    let location = location(Vector3i::zero(), 0);
    let mut dirty = make_tagged_lod_block(234, 0);
    dirty.set_modified(true);
    dirty.set_edited(true);
    assert!(shared.try_set_block(location.position, dirty).unwrap());

    let preview = shared.begin_transaction_preview();
    let (operations, snapshots, payloads) = preview
        .prepare_resident_dirty_copies(&shared)
        .unwrap()
        .into_parts();
    assert_eq!(payloads[0].block_revision, 1);
    assert!(shared
        .try_set_voxel_checked(235, Vector3i::new(1, 1, 1), ChannelId::Type.index(),)
        .unwrap());

    let error = preview
        .prepare_transaction(&shared, operations, &snapshots)
        .err().unwrap();
    assert_eq!(
        error.error(),
        &SharedVoxelDataMutationError::ConcurrentDataMutation {
            position: location.position,
            lod_index: 0,
            expected_revision: VoxelDataKeyRevision::Present(1),
            actual_revision: VoxelDataKeyRevision::Present(2),
        }
    );
    assert_eq!(
        payloads[0]
            .voxels
            .get_voxel(1, 1, 1, ChannelId::Type.index()),
        0
    );
    let resident = shared.block_snapshot(location.position, 0).unwrap();
    assert!(resident.is_modified());
    assert_eq!(
        resident
            .voxels()
            .get_voxel(1, 1, 1, ChannelId::Type.index()),
        235
    );
}

#[test]
fn resident_edit_after_snapshot_commit_creates_a_superseding_revision() {
    let mut shared = make_shared_data_with_lods(1);
    let location = location(Vector3i::zero(), 0);
    let mut dirty = make_tagged_lod_block(236, 0);
    dirty.set_modified(true);
    assert!(shared.try_set_block(location.position, dirty).unwrap());

    let preview = shared.begin_transaction_preview();
    let (operations, snapshots, first_payloads) = preview
        .prepare_resident_dirty_copies(&shared)
        .unwrap()
        .into_parts();
    let mut prepared = preview.prepare_transaction(&shared, operations, &snapshots).unwrap();
    prepared.commit(&mut shared).unwrap();
    assert_eq!(first_payloads[0].block_revision, 1);

    assert!(shared
        .try_edit_voxel_checked(237, Vector3i::new(2, 2, 2), ChannelId::Type.index(),)
        .unwrap());
    let second_preview = shared.begin_transaction_preview();
    let (_, _, second_payloads) = second_preview
        .prepare_resident_dirty_copies(&shared)
        .unwrap()
        .into_parts();
    assert_eq!(second_payloads[0].block_revision, 3);
    assert_eq!(
        second_payloads[0]
            .voxels
            .get_voxel(2, 2, 2, ChannelId::Type.index()),
        237
    );
    assert!(shared
        .block_snapshot(location.position, 0)
        .unwrap()
        .is_modified());
}

#[test]
fn resident_snapshot_capacity_failure_preserves_every_dirty_key() {
    for reservation in [
        SharedVoxelDataTransactionReservation::OperationStorage,
        SharedVoxelDataTransactionReservation::PreviewSnapshotStorage,
        SharedVoxelDataTransactionReservation::ResidentDirtyPayloadStorage,
        SharedVoxelDataTransactionReservation::ResidentDirtyPayloadCopy,
    ] {
        let mut shared = make_shared_data_with_lods(2);
        let locations = [
            location(Vector3i::new(-1, 0, 0), 0),
            location(Vector3i::new(1, 0, 0), 1),
        ];
        let mut identities = Vec::new();
        for (tag, location) in [241_u64, 242].into_iter().zip(locations) {
            let mut dirty = make_tagged_lod_block(tag, location.lod_index);
            dirty.set_modified(true);
            identities.push(block_buffer_identity(&dirty));
            assert!(shared.try_set_block(location.position, dirty).unwrap());
        }

        // A failing copy is one for which there is no room.
        let room = match reservation {
            SharedVoxelDataTransactionReservation::ResidentDirtyPayloadCopy => 0,
            _ => usize::MAX,
        };
        let preview = shared.begin_transaction_preview();
        assert_eq!(
            preview
                .prepare_resident_dirty_copies_reserved(&shared, Some(reservation), room)
                .err()
                .unwrap(),
            SharedVoxelDataMutationError::PreparedTransactionCapacityReservationFailed {
                reservation,
            }
        );
        for (index, location) in locations.into_iter().enumerate() {
            assert_eq!(
                shared.key_revision(location.position, usize::from(location.lod_index)),
                Some(VoxelDataKeyRevision::Present(1))
            );
            shared.with_lod_map(usize::from(location.lod_index), |map| {
                let resident = map.get_block(location.position).unwrap();
                assert!(resident.is_modified());
                assert_eq!(block_buffer_identity(resident), identities[index]);
            });
        }
    }
}

#[test]
fn resident_second_payload_copy_failure_preserves_every_dirty_owner() {
    let mut shared = make_shared_data_with_lods(1);
    let locations = [
        location(Vector3i::new(-1, 0, 0), 0),
        location(Vector3i::zero(), 0),
        location(Vector3i::new(1, 0, 0), 0),
    ];
    let mut identities = Vec::new();
    for (tag, location) in [251_u64, 252, 253].into_iter().zip(locations) {
        let mut dirty = make_tagged_lod_block(tag, 0);
        dirty.set_modified(true);
        identities.push(block_buffer_identity(&dirty));
        assert!(shared.try_set_block(location.position, dirty).unwrap());
    }
    let preview = shared.begin_transaction_preview();

    assert_eq!(
        preview
            .prepare_resident_dirty_copies_reserved(&shared, None, 1)
            .err()
            .unwrap(),
        SharedVoxelDataMutationError::PreparedTransactionCapacityReservationFailed {
            reservation: SharedVoxelDataTransactionReservation::ResidentDirtyPayloadCopy,
        }
    );
    for (index, location) in locations.into_iter().enumerate() {
        assert_eq!(
            shared.key_revision(location.position, 0),
            Some(VoxelDataKeyRevision::Present(1))
        );
        shared.with_lod_map(0, |map| {
            let resident = map.get_block(location.position).unwrap();
            assert!(resident.is_modified());
            assert_eq!(block_buffer_identity(resident), identities[index]);
        });
    }
}

#[test]
fn resident_dirty_without_voxels_is_typed_and_remains_dirty() {
    let mut shared = make_shared_data_with_lods(1);
    let location = location(Vector3i::zero(), 0);
    let mut dirty = VoxelDataBlock::empty(0);
    dirty.set_modified(true);
    assert!(shared.try_set_block(location.position, dirty).unwrap());

    assert_eq!(
        shared
            .begin_transaction_preview()
            .prepare_resident_dirty_copies(&shared)
            .err()
            .unwrap(),
        SharedVoxelDataMutationError::DirtyBlockMissingVoxels { location }
    );
    assert!(shared
        .block_snapshot(location.position, 0)
        .unwrap()
        .is_modified());
    assert_eq!(
        shared.key_revision(location.position, 0),
        Some(VoxelDataKeyRevision::Present(1))
    );
}

#[test]
fn closed_mutation_admission_rejects_direct_and_prepared_writers_until_reopened() {
    let mut shared = make_shared_data_with_lods(1);
    let location = location(Vector3i::zero(), 0);
    assert!(shared
        .try_set_block(location.position, make_tagged_lod_block(261, 0))
        .unwrap());
    let mut stale = shared
        .prepare_transaction(vec![SharedVoxelDataTransactionOperation::SetViewersExact {
            location,
            final_viewers: 3,
        }])
        .unwrap();
    let _permit = shared.close_mutation_admission_for_shutdown();

    assert!(shared.is_mutation_admission_closed());
    assert_eq!(
        shared.try_edit_voxel_checked(262, Vector3i::zero(), ChannelId::Type.index()),
        Err(SharedVoxelDataMutationError::MutationAdmissionClosed)
    );
    assert_eq!(
        stale.commit(&mut shared).err().unwrap(),
        SharedVoxelDataMutationError::MutationAdmissionClosed
    );
    shared.reopen_mutation_admission();
    stale.commit(&mut shared).unwrap();
    assert_eq!(
        shared
            .block_snapshot(location.position, 0)
            .unwrap()
            .viewers
            .get(),
        3
    );
}

#[test]
fn shutdown_mutation_permit_is_exact_lineage_authority_for_closed_admission() {
    let mut first = SharedVoxelData::new(make_data(1));
    let mut second = SharedVoxelData::new(make_data(1));
    let position = Vector3i::zero();
    for shared in [&mut first, &mut second] {
        assert!(shared
            .try_set_block(position, make_tagged_lod_block(271, 0))
            .unwrap());
    }
    let location = location(position, 0);
    let mut first_transaction = first
        .prepare_transaction(vec![SharedVoxelDataTransactionOperation::SetViewersExact {
            location,
            final_viewers: 4,
        }])
        .unwrap();
    let mut second_transaction = second
        .prepare_transaction(vec![SharedVoxelDataTransactionOperation::SetViewersExact {
            location,
            final_viewers: 5,
        }])
        .unwrap();

    let first_permit = first.close_mutation_admission_for_shutdown();
    let second_revision_before = second.key_revision(position, 0);
    assert_eq!(
        second_transaction.authorize_shutdown_mutation(&first_permit),
        Err(SharedVoxelDataMutationError::ShutdownMutationPermitMismatch)
    );
    assert_eq!(second.key_revision(position, 0), second_revision_before);
    second_transaction.commit(&mut second).unwrap();
    assert_eq!(second.block_snapshot(position, 0).unwrap().viewers.get(), 5);

    assert_eq!(
        first_transaction.commit(&mut first).err().unwrap(),
        SharedVoxelDataMutationError::MutationAdmissionClosed
    );
    first_transaction
        .authorize_shutdown_mutation(&first_permit)
        .unwrap();
    first_transaction.commit(&mut first).unwrap();
    assert_eq!(first.block_snapshot(position, 0).unwrap().viewers.get(), 4);
    assert!(first.is_mutation_admission_closed());
}

#[test]
fn prepared_mixed_lod_replace_revision_overflow_is_preparation_atomic() {
    let mut shared = make_shared_data_with_lods(2);
    let lod0 = location(Vector3i::zero(), 0);
    let lod1 = location(Vector3i::zero(), 1);
    let mut lod0_original = make_tagged_lod_block(241, 0);
    lod0_original.viewers.set_exact(8);
    let lod0_original_identity = block_buffer_identity(&lod0_original);
    assert!(shared.try_set_block(lod0.position, lod0_original).unwrap());
    let mut lod1_original = make_tagged_lod_block(242, 1);
    lod1_original.set_modified(true);
    let lod1_original_identity = block_buffer_identity(&lod1_original);
    assert!(shared.try_set_block(lod1.position, lod1_original).unwrap());
    with_map_mut(&mut shared, 1, |map| {
        map.commit_key_revision(lod1.position, u64::MAX);
    });
    let lod0_replacement = make_tagged_lod_block(243, 0);
    let lod0_identity = block_buffer_identity(&lod0_replacement);
    let lod1_replacement = make_tagged_lod_block(244, 1);
    let lod1_identity = block_buffer_identity(&lod1_replacement);

    let error = shared
        .prepare_transaction(vec![
            SharedVoxelDataTransactionOperation::Replace {
                location: lod1,
                block: lod1_replacement,
            },
            SharedVoxelDataTransactionOperation::Replace {
                location: lod0,
                block: lod0_replacement,
            },
        ])
        .err().unwrap();

    assert_eq!(
        error.error(),
        &SharedVoxelDataMutationError::KeyRevisionOverflow {
            position: lod1.position,
            lod_index: 1,
        }
    );
    let (_, operations) = error.into_parts();
    let retained_identity = |location| {
        operations
            .iter()
            .find_map(|operation| match operation {
                SharedVoxelDataTransactionOperation::Replace {
                    location: candidate,
                    block,
                } if *candidate == location => Some(block_buffer_identity(block)),
                _ => None,
            })
            .unwrap()
    };
    assert_eq!(retained_identity(lod0), lod0_identity);
    assert_eq!(retained_identity(lod1), lod1_identity);
    assert_eq!(
        shared.key_revision(lod0.position, 0),
        Some(VoxelDataKeyRevision::Present(1))
    );
    assert_eq!(
        shared.key_revision(lod1.position, 1),
        Some(VoxelDataKeyRevision::Present(u64::MAX))
    );
    shared.with_lod_map(0, |map| {
        let resident = map.get_block(lod0.position).unwrap();
        assert_eq!(block_buffer_identity(resident), lod0_original_identity);
        assert_eq!(resident.viewers.get(), 8);
        assert!(!resident.is_modified());
        assert!(!resident.is_edited());
        assert_eq!(
            resident
                .voxels()
                .get_voxel(0, 0, 0, ChannelId::Type.index()),
            241
        );
    });
    shared.with_lod_map(1, |map| {
        let resident = map.get_block(lod1.position).unwrap();
        assert_eq!(block_buffer_identity(resident), lod1_original_identity);
        assert!(resident.is_modified());
        assert!(!resident.is_edited());
        assert_eq!(resident.viewers.get(), 0);
        assert_eq!(
            resident
                .voxels()
                .get_voxel(0, 0, 0, ChannelId::Type.index()),
            242
        );
    });
}

#[test]
fn prepared_mixed_clear_and_replace_late_conflict_rolls_back_then_retries() {
    let mut shared = make_shared_data_with_lods(2);
    let cleared = location(Vector3i::zero(), 0);
    let replaced = location(Vector3i::zero(), 1);
    let mut dirty = make_tagged_lod_block(261, 0);
    dirty.set_modified(true);
    dirty.set_edited(true);
    let dirty_identity = block_buffer_identity(&dirty);
    assert!(shared.try_set_block(cleared.position, dirty).unwrap());
    assert!(shared
        .try_set_block(replaced.position, make_tagged_lod_block(262, 1))
        .unwrap());
    let replacement = make_tagged_lod_block(263, 1);
    let replacement_identity = block_buffer_identity(&replacement);
    let mut prepared = shared
        .prepare_transaction(vec![
            SharedVoxelDataTransactionOperation::Replace {
                location: replaced,
                block: replacement,
            },
            SharedVoxelDataTransactionOperation::ClearModified { location: cleared },
        ])
        .unwrap();

    let concurrent = make_tagged_lod_block(264, 1);
    let concurrent_identity = block_buffer_identity(&concurrent);
    with_map_mut(&mut shared, 1, |map| {
        map.set_block(replaced.position, concurrent, true);
        map.commit_key_revision(replaced.position, 2);
    });
    assert_eq!(
        prepared.commit(&mut shared).err().unwrap(),
        SharedVoxelDataMutationError::ConcurrentDataMutation {
            position: replaced.position,
            lod_index: 1,
            expected_revision: VoxelDataKeyRevision::Present(1),
            actual_revision: VoxelDataKeyRevision::Present(2),
        }
    );
    assert_eq!(
        block_buffer_identity(prepared.owned_block(replaced).unwrap()),
        replacement_identity
    );
    shared.with_lod_map(0, |map| {
        let resident = map.get_block(cleared.position).unwrap();
        assert_eq!(block_buffer_identity(resident), dirty_identity);
        assert!(resident.is_modified());
    });
    assert_eq!(
        shared.key_revision(cleared.position, 0),
        Some(VoxelDataKeyRevision::Present(1))
    );
    shared.with_lod_map(1, |map| {
        let resident = map.get_block(replaced.position).unwrap();
        assert_eq!(block_buffer_identity(resident), concurrent_identity);
        assert_eq!(
            resident
                .voxels()
                .get_voxel(0, 0, 0, ChannelId::Type.index()),
            264
        );
    });

    let operations = prepared.into_operations().unwrap();
    let mut retry = shared.prepare_transaction(operations).unwrap();
    let outcome = retry.commit(&mut shared).unwrap();
    assert!(!shared
        .block_snapshot(cleared.position, 0)
        .unwrap()
        .is_modified());
    shared.with_lod_map(1, |map| {
        assert_eq!(
            block_buffer_identity(
                map.get_block(replaced.position)
                    .expect("retry installs replacement")
            ),
            replacement_identity
        );
    });
    assert_eq!(outcome.removed_blocks().len(), 1);
    assert_eq!(
        block_buffer_identity(outcome.removed_blocks()[0].block()),
        concurrent_identity
    );
}

#[test]
fn prepared_replace_and_clear_failpoints_preserve_owned_and_resident_state() {
    let mut shared = make_shared_data_with_lods(1);
    let replaced = location(Vector3i::zero(), 0);
    let cleared = location(Vector3i::new(1, 0, 0), 0);
    assert!(shared
        .try_set_block(replaced.position, make_tagged_lod_block(251, 0))
        .unwrap());
    let mut dirty = make_tagged_lod_block(252, 0);
    dirty.set_modified(true);
    let dirty_identity = block_buffer_identity(&dirty);
    assert!(shared.try_set_block(cleared.position, dirty).unwrap());
    let replacement = make_tagged_lod_block(253, 0);
    let replacement_identity = block_buffer_identity(&replacement);

    let error = shared
        .prepare_transaction_reserved(
            vec![SharedVoxelDataTransactionOperation::Replace {
                location: replaced,
                block: replacement,
            }],
            0,
            TransactionLists::new(),
            Some(SharedVoxelDataTransactionReservation::RemovedOutcome),
        )
        .err().unwrap();
    assert_eq!(
        error.error(),
        &SharedVoxelDataMutationError::PreparedTransactionCapacityReservationFailed {
            reservation: SharedVoxelDataTransactionReservation::RemovedOutcome,
        }
    );
    let (_, operations) = error.into_parts();
    assert_eq!(
        operations
            .iter()
            .find_map(|operation| match operation {
                SharedVoxelDataTransactionOperation::Replace { block, .. } => {
                    Some(block_buffer_identity(block))
                }
                _ => None,
            })
            .unwrap(),
        replacement_identity
    );
    assert_eq!(
        shared.with_lod_map(0, |map| map
            .get_block(replaced.position)
            .unwrap()
            .voxels()
            .get_voxel(0, 0, 0, ChannelId::Type.index())),
        251
    );

    let mut prepared = shared
        .prepare_transaction(vec![SharedVoxelDataTransactionOperation::ClearModified {
            location: cleared,
        }])
        .unwrap();
    assert_eq!(
        commit_without_room(
            &mut prepared,
            &mut shared,
            SharedVoxelDataTransactionReservation::LiveKeyRevisions,
        ),
        SharedVoxelDataMutationError::PreparedTransactionCapacityReservationFailed {
            reservation: SharedVoxelDataTransactionReservation::LiveKeyRevisions,
        }
    );
    assert_eq!(
        shared.key_revision(cleared.position, 0),
        Some(VoxelDataKeyRevision::Present(1))
    );
    shared.with_lod_map(0, |map| {
        let resident = map.get_block(cleared.position).unwrap();
        assert_eq!(block_buffer_identity(resident), dirty_identity);
        assert!(resident.is_modified());
    });

    prepared.commit(&mut shared).unwrap();
    assert!(!shared
        .block_snapshot(cleared.position, 0)
        .unwrap()
        .is_modified());
}

#[test]
fn prepared_batch_capacity_failpoints_cover_every_destination_without_state_change() {
    let preparation_failpoints = [
        SharedVoxelDataTransactionReservation::OperationStorage,
        SharedVoxelDataTransactionReservation::SpatialPreparation,
        SharedVoxelDataTransactionReservation::RemovedOutcome,
    ];
    for failpoint in preparation_failpoints {
        let mut shared = make_shared_data_with_lods(1);
        let resident = location(Vector3i::zero(), 0);
        let inserted = location(Vector3i::new(1, 0, 0), 0);
        assert!(shared
            .try_set_block(resident.position, make_tagged_lod_block(31, 0))
            .unwrap());
        let insert = make_tagged_lod_block(32, 0);
        let identity = block_buffer_identity(&insert);
        let error = shared
            .prepare_transaction_reserved(
                vec![
                SharedVoxelDataTransactionOperation::Remove { location: resident },
                SharedVoxelDataTransactionOperation::Insert {
                    location: inserted,
                    block: insert,
                    final_viewers: 2,
                },
            ],
                0,
                TransactionLists::new(),
                Some(failpoint),
            )
            .err().unwrap();
        assert_eq!(
            error.error(),
            &SharedVoxelDataMutationError::PreparedTransactionCapacityReservationFailed {
                reservation: failpoint,
            }
        );
        let (_, operations) = error.into_parts();
        let retained = operations
            .iter()
            .find_map(|operation| match operation {
                SharedVoxelDataTransactionOperation::Insert { block, .. } => Some(block),
                _ => None,
            })
            .unwrap();
        assert_eq!(block_buffer_identity(retained), identity);
        assert!(shared.with_lod_map(0, |map| map.has_block(resident.position)));
        assert!(!shared.with_lod_map(0, |map| map.has_block(inserted.position)));
        assert_eq!(
            shared.key_revision(resident.position, 0),
            Some(VoxelDataKeyRevision::Present(1))
        );
    }

    for failpoint in [
        SharedVoxelDataTransactionReservation::LiveMap,
        SharedVoxelDataTransactionReservation::LiveKeyRevisions,
    ] {
        let mut shared = make_shared_data_with_lods(1);
        let resident = location(Vector3i::zero(), 0);
        let inserted = location(Vector3i::new(1, 0, 0), 0);
        assert!(shared
            .try_set_block(resident.position, make_tagged_lod_block(41, 0))
            .unwrap());
        let insert = make_tagged_lod_block(42, 0);
        let identity = block_buffer_identity(&insert);
        let mut prepared = shared
            .prepare_transaction(vec![
                SharedVoxelDataTransactionOperation::Remove { location: resident },
                SharedVoxelDataTransactionOperation::Insert {
                    location: inserted,
                    block: insert,
                    final_viewers: 2,
                },
            ])
            .unwrap();
        assert_eq!(
            commit_without_room(&mut prepared, &mut shared, failpoint),
            SharedVoxelDataMutationError::PreparedTransactionCapacityReservationFailed {
                reservation: failpoint,
            }
        );
        assert_eq!(
            block_buffer_identity(prepared.inserted_block(inserted).unwrap()),
            identity
        );
        assert!(shared.with_lod_map(0, |map| map.has_block(resident.position)));
        assert!(!shared.with_lod_map(0, |map| map.has_block(inserted.position)));
        assert_eq!(
            shared.key_revision(resident.position, 0),
            Some(VoxelDataKeyRevision::Present(1))
        );
        assert_eq!(
            shared.key_revision(inserted.position, 0),
            Some(VoxelDataKeyRevision::Tombstone(0))
        );
    }
}

#[test]
fn prepared_batch_live_spatial_registry_failure_restores_all_batches_and_inputs() {
    let mut shared = make_shared_data_with_lods(2);
    let inserted = location(Vector3i::new(0, 0, 0), 0);
    let existing = location(Vector3i::new(2, 0, 0), 1);
    assert!(shared
        .try_set_block(existing.position, make_tagged_lod_block(51, 1))
        .unwrap());
    let insert = make_tagged_lod_block(52, 0);
    let insert_identity = block_buffer_identity(&insert);
    let mut prepared = shared
        .prepare_transaction(vec![
            SharedVoxelDataTransactionOperation::SetViewersExact {
                location: existing,
                final_viewers: 7,
            },
            SharedVoxelDataTransactionOperation::Insert {
                location: inserted,
                block: insert,
                final_viewers: 3,
            },
        ])
        .unwrap();

    assert_eq!(
        commit_without_room(
            &mut prepared,
            &mut shared,
            SharedVoxelDataTransactionReservation::LiveSpatialRegistry,
        ),
        SharedVoxelDataMutationError::PreparedTransactionCapacityReservationFailed {
            reservation: SharedVoxelDataTransactionReservation::LiveSpatialRegistry,
        }
    );
    assert_eq!(shared.locked_region_count(0), 0);
    assert_eq!(shared.locked_region_count(1), 0);
    assert!(!shared.with_lod_map(0, |map| map.has_block(inserted.position)));
    assert_eq!(
        shared.with_lod_map(1, |map| map
            .get_block(existing.position)
            .unwrap()
            .viewers
            .get()),
        0
    );
    assert_eq!(
        shared.key_revision(inserted.position, 0),
        Some(VoxelDataKeyRevision::Tombstone(0))
    );
    assert_eq!(
        shared.key_revision(existing.position, 1),
        Some(VoxelDataKeyRevision::Present(1))
    );
    assert_eq!(
        block_buffer_identity(prepared.inserted_block(inserted).unwrap()),
        insert_identity
    );

    prepared.commit(&mut shared).unwrap();
    assert_eq!(
        shared.with_lod_map(0, |map| {
            let block = map.get_block(inserted.position).unwrap();
            assert_eq!(block.viewers.get(), 3);
            block_buffer_identity(block)
        }),
        insert_identity
    );
    assert_eq!(
        shared.with_lod_map(1, |map| map
            .get_block(existing.position)
            .unwrap()
            .viewers
            .get()),
        7
    );
}

#[test]
fn prepared_batch_duplicate_or_presence_mismatch_is_rejected_before_mutation() {
    let mut shared = make_shared_data_with_lods(1);
    let present = location(Vector3i::zero(), 0);
    let absent = location(Vector3i::new(1, 0, 0), 0);
    assert!(shared
        .try_set_block(present.position, make_tagged_lod_block(61, 0))
        .unwrap());

    let duplicate = shared
        .prepare_transaction(vec![
            SharedVoxelDataTransactionOperation::SetViewersExact {
                location: present,
                final_viewers: 1,
            },
            SharedVoxelDataTransactionOperation::Remove { location: present },
        ])
        .err().unwrap();
    assert_eq!(
        duplicate.error(),
        &SharedVoxelDataMutationError::DuplicatePreparedTransactionOperation {
            location: present,
        }
    );
    assert_eq!(duplicate.operations().len(), 2);

    let missing = shared
        .prepare_transaction(vec![SharedVoxelDataTransactionOperation::SetViewersExact {
            location: absent,
            final_viewers: 1,
        }])
        .err().unwrap();
    assert_eq!(
        missing.error(),
        &SharedVoxelDataMutationError::PreparedTransactionExpectedPresent {
            location: absent,
            actual_revision: VoxelDataKeyRevision::Tombstone(0),
        }
    );

    let insert = make_tagged_lod_block(62, 0);
    let identity = block_buffer_identity(&insert);
    let occupied = shared
        .prepare_transaction(vec![SharedVoxelDataTransactionOperation::Insert {
            location: present,
            block: insert,
            final_viewers: 1,
        }])
        .err().unwrap();
    assert_eq!(
        occupied.error(),
        &SharedVoxelDataMutationError::PreparedTransactionExpectedTombstone {
            location: present,
            actual_revision: VoxelDataKeyRevision::Present(1),
        }
    );
    let (_, operations) = occupied.into_parts();
    let SharedVoxelDataTransactionOperation::Insert { block, .. } = &operations[0] else {
        panic!("insert operation must be retained");
    };
    assert_eq!(block_buffer_identity(block), identity);

    let no_op = shared
        .prepare_transaction(vec![SharedVoxelDataTransactionOperation::SetViewersExact {
            location: present,
            final_viewers: 0,
        }])
        .err().unwrap();
    assert_eq!(
        no_op.error(),
        &SharedVoxelDataMutationError::PreparedTransactionNoop { location: present }
    );
    assert_eq!(
        shared.key_revision(present.position, 0),
        Some(VoxelDataKeyRevision::Present(1))
    );
    assert_eq!(
        shared.with_lod_map(0, |map| map
            .get_block(present.position)
            .unwrap()
            .viewers
            .get()),
        0
    );
}

#[test]
fn prepared_batch_has_no_recoverable_failure_after_first_live_write() {
    let mut shared = make_shared_data_with_lods(1);
    let resident = location(Vector3i::zero(), 0);
    let inserted = location(Vector3i::new(1, 0, 0), 0);
    assert!(shared
        .try_set_block(resident.position, make_tagged_lod_block(101, 0))
        .unwrap());
    for failpoint in [
        SharedVoxelDataTransactionReservation::LiveMap,
        SharedVoxelDataTransactionReservation::LiveKeyRevisions,
    ] {
        let mut prepared = shared
            .prepare_transaction(vec![
                SharedVoxelDataTransactionOperation::Remove { location: resident },
                SharedVoxelDataTransactionOperation::Insert {
                    location: inserted,
                    block: make_tagged_lod_block(102, 0),
                    final_viewers: 6,
                },
            ])
            .unwrap();
        let _ = commit_without_room(&mut prepared, &mut shared, failpoint);
        assert!(shared.with_lod_map(0, |map| map.has_block(resident.position)));
        assert!(!shared.with_lod_map(0, |map| map.has_block(inserted.position)));
    }
    let mut prepared = shared
        .prepare_transaction(vec![
            SharedVoxelDataTransactionOperation::Remove { location: resident },
            SharedVoxelDataTransactionOperation::Insert {
                location: inserted,
                block: make_tagged_lod_block(103, 0),
                final_viewers: 6,
            },
        ])
        .unwrap();
    prepared.commit(&mut shared).unwrap();
    assert!(!shared.with_lod_map(0, |map| map.has_block(resident.position)));
    assert!(shared.with_lod_map(0, |map| map.has_block(inserted.position)));
}
