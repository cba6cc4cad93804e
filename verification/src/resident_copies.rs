//! Copying all modified blocks of shared voxel data for saving, as part of a
//! larger transaction.

use crate::buffer_model::BufferModel;
use crate::channel::{Allocator, MAX_CHANNELS};
use crate::collections;
use crate::map_areas;
use crate::math::Vector3i;
use crate::mutation_error::{
    SharedVoxelDataMutationError, SharedVoxelDataTransactionReservation,
};
use crate::prepared_transaction;
use crate::shared_data::SharedVoxelData;
use crate::shared_marks;
use crate::sorting;
use crate::sorting::Keyed;
use crate::transaction;
use crate::transaction::{OperationModel, SharedVoxelDataTransactionOperation};
use crate::transaction_preview;
use crate::transaction_preview::{
    PreviewLineage, SharedVoxelDataTransactionBlockSnapshot, SharedVoxelDataTransactionPreview,
    SnapshotModel,
};
use crate::voxel_buffer::VoxelBuffer;
use crate::voxel_data::{BlockLocation, DataModel};
use vstd::prelude::*;

verus! {

/// The voxels of a modified block, and the revision that its key had.
#[derive(Debug)]
pub struct RevisionedBlockToSave {
    pub location: BlockLocation,
    pub block_revision: u64,
    pub voxels: VoxelBuffer,
}

/// What a `RevisionedBlockToSave` holds.
#[verifier::ext_equal]
pub struct RevisionedSaveModel {
    pub location: BlockLocation,
    pub block_revision: u64,
    pub voxels: BufferModel,
}

impl View for RevisionedBlockToSave {
    type V = RevisionedSaveModel;

    open spec fn view(&self) -> RevisionedSaveModel {
        RevisionedSaveModel {
            location: self.location,
            block_revision: self.block_revision,
            voxels: self.voxels@,
        }
    }
}

/// Copies of all modified blocks, together with the operations that take them as
/// saved and the snapshots that these rest on, all in the order of the keys.
#[derive(Debug)]
pub struct PreparedResidentDirtyCopies {
    operations: Vec<SharedVoxelDataTransactionOperation>,
    snapshots: Vec<SharedVoxelDataTransactionBlockSnapshot>,
    payloads: Vec<RevisionedBlockToSave>,
}

/// What `PreparedResidentDirtyCopies` hold.
#[verifier::ext_equal]
pub struct DirtyCopiesModel {
    pub operations: Seq<OperationModel>,
    pub snapshots: Seq<SnapshotModel>,
    pub payloads: Seq<RevisionedSaveModel>,
}

/// What a list of snapshots shows.
pub open spec fn snapshots_of(s: Seq<SharedVoxelDataTransactionBlockSnapshot>) -> Seq<
    SnapshotModel,
> {
    s.map_values(|x: SharedVoxelDataTransactionBlockSnapshot| x@)
}

/// What a list of voxels to be saved holds.
pub open spec fn payloads_of(s: Seq<RevisionedBlockToSave>) -> Seq<RevisionedSaveModel> {
    s.map_values(|x: RevisionedBlockToSave| x@)
}

/// All voxels to be saved are well-formed.
pub open spec fn payloads_wf(s: Seq<RevisionedBlockToSave>) -> bool {
    forall|k: int| 0 <= k < s.len() ==> (#[trigger] s[k]).voxels.wf()
}

impl View for PreparedResidentDirtyCopies {
    type V = DirtyCopiesModel;

    closed spec fn view(&self) -> DirtyCopiesModel {
        DirtyCopiesModel {
            operations: prepared_transaction::operations_of(self.operations@),
            snapshots: snapshots_of(self.snapshots@),
            payloads: payloads_of(self.payloads@),
        }
    }
}

impl PreparedResidentDirtyCopies {
    /// Operations and copies are well-formed.
    pub closed spec fn wf(&self) -> bool {
        prepared_transaction::operations_wf(self.operations@) && payloads_wf(self.payloads@)
    }

    /// The operations, the snapshots and the copies.
    pub fn into_parts(self) -> (parts: (
        Vec<SharedVoxelDataTransactionOperation>,
        Vec<SharedVoxelDataTransactionBlockSnapshot>,
        Vec<RevisionedBlockToSave>,
    ))
        requires
            self.wf(),
        ensures
            prepared_transaction::operations_of(parts.0@) == self@.operations,
            prepared_transaction::operations_wf(parts.0@),
            snapshots_of(parts.1@) == self@.snapshots,
            payloads_of(parts.2@) == self@.payloads,
            payloads_wf(parts.2@),
    {
        (self.operations, self.snapshots, self.payloads)
    }
}

impl Keyed for BlockLocation {
    open spec fn key(&self) -> int {
        transaction::location_key(*self)
    }

    fn sort_key(&self) -> (k: u128) {
        transaction::key_of_location(*self)
    }
}

/// There is a modified block.
pub open spec fn dirty_at(d: DataModel, location: BlockLocation) -> bool {
    location.lod_index < d.lods.len() && map_areas::modified_at(
        d.lods[location.lod_index as int],
        location.position,
    )
}

/// `places` are those of all modified blocks, in the order of their keys.
pub open spec fn lists_dirty(places: Seq<BlockLocation>, d: DataModel) -> bool {
    &&& sorting::increasing(places)
    &&& forall|l: BlockLocation| #[trigger] places.contains(l) <==> dirty_at(d, l)
}

/// Why a modified block cannot be copied or taken as saved.
pub open spec fn dirty_error(d: DataModel, location: BlockLocation) -> Option<
    SharedVoxelDataMutationError,
> {
    let m = d.lods[location.lod_index as int];
    let p = location.position;
    if m.blocks[p].voxels is None {
        Some(SharedVoxelDataMutationError::DirtyBlockMissingVoxels { location })
    } else if m.revision(p) == u64::MAX {
        Some(
            SharedVoxelDataMutationError::KeyRevisionOverflow {
                position: p,
                lod_index: location.lod_index as usize,
            },
        )
    } else {
        None
    }
}

/// `dirty_error` as a function of the place.
pub open spec fn dirty_errors(d: DataModel) -> spec_fn(BlockLocation) -> Option<
    SharedVoxelDataMutationError,
> {
    |l: BlockLocation| dirty_error(d, l)
}

/// The copy of a block to be saved.
pub open spec fn dirty_payload(d: DataModel, location: BlockLocation) -> RevisionedSaveModel {
    let m = d.lods[location.lod_index as int];
    RevisionedSaveModel {
        location,
        block_revision: m.revision(location.position),
        voxels: m.blocks[location.position].voxels->0,
    }
}

/// The copies of the blocks at `places`.
pub open spec fn dirty_copies(
    d: DataModel,
    lineage: PreviewLineage,
    places: Seq<BlockLocation>,
) -> DirtyCopiesModel {
    DirtyCopiesModel {
        operations: places.map_values(
            |l: BlockLocation| OperationModel::ClearModified { location: l },
        ),
        snapshots: places.map_values(
            |l: BlockLocation| transaction_preview::snapshot_of(d, l, lineage),
        ),
        payloads: places.map_values(|l: BlockLocation| dirty_payload(d, l)),
    }
}

/// The lists that room is asked for, before anything is copied.
pub open spec fn is_dirty_list(r: SharedVoxelDataTransactionReservation) -> bool {
    r is OperationStorage || r is PreviewSnapshotStorage || r is ResidentDirtyPayloadStorage
}

/// Why the blocks at `places` cannot be copied, where there is room for the
/// voxels of the first `room` blocks.
pub open spec fn copies_refusal(
    d: DataModel,
    places: Seq<BlockLocation>,
    failed: Option<SharedVoxelDataTransactionReservation>,
    room: nat,
) -> Option<SharedVoxelDataMutationError> {
    if failed is Some && is_dirty_list(failed->0) {
        Some(prepared_transaction::no_room(failed->0))
    } else if room >= places.len() || collections::first_some(
        places.take(room as int + 1),
        dirty_errors(d),
    ) is Some {
        collections::first_some(places, dirty_errors(d))
    } else {
        Some(
            prepared_transaction::no_room(
                SharedVoxelDataTransactionReservation::ResidentDirtyPayloadCopy,
            ),
        )
    }
}

/// The outcome of copying all modified blocks.
pub open spec fn copies_outcome(
    d: DataModel,
    lineage: PreviewLineage,
    places: Seq<BlockLocation>,
    failed: Option<SharedVoxelDataTransactionReservation>,
    room: nat,
    r: Result<PreparedResidentDirtyCopies, SharedVoxelDataMutationError>,
) -> bool {
    &&& lists_dirty(places, d)
    &&& match r {
        Ok(c) => copies_refusal(d, places, failed, room) is None && c.wf() && c@ == dirty_copies(
            d,
            lineage,
            places,
        ),
        Err(e) => copies_refusal(d, places, failed, room) == Some(e),
    }
}

/// The places of all modified blocks, in the order of their keys.
fn dirty_locations(data: &SharedVoxelData) -> (places: Vec<BlockLocation>)
    requires
        data.wf(),
    ensures
        lists_dirty(places@, data@.data),
{
    let ghost d = data@.data;
    let mut found: Vec<BlockLocation> = Vec::new();
    proof {
        data.lemma_wf();
    }
    let n: usize = data.lod_count();
    let mut l: usize = 0;
    while l < n
        invariant
            l <= n,
            n == d.lods.len(),
            n < 24,
            data.wf(),
            d == data@.data,
            found@.no_duplicates(),
            forall|k: int|
                0 <= k < found@.len() ==> (#[trigger] found@[k]).lod_index < l && dirty_at(
                    d,
                    found@[k],
                ),
            forall|x: BlockLocation|
                x.lod_index < l && #[trigger] dirty_at(d, x) ==> found@.contains(x),
        decreases n - l,
    {
        let map = data.lod(l);
        let positions = map.block_positions();
        let mut i: usize = 0;
        while i < positions.len()
            invariant
                i <= positions@.len(),
                l < n,
                n == d.lods.len(),
                n < 24,
                data.wf(),
                d == data@.data,
                map.wf(),
                map@ == d.lods[l as int],
                positions@.no_duplicates(),
                positions@.to_set() == map@.blocks.dom(),
                found@.no_duplicates(),
                forall|k: int|
                    0 <= k < found@.len() ==> (#[trigger] found@[k]).lod_index <= l && dirty_at(
                        d,
                        found@[k],
                    ) && (found@[k].lod_index == l ==> positions@.take(i as int).contains(
                        found@[k].position,
                    )),
                forall|x: BlockLocation|
                    x.lod_index < l && #[trigger] dirty_at(d, x) ==> found@.contains(x),
                forall|x: BlockLocation|
                    x.lod_index == l && #[trigger] dirty_at(d, x) && positions@.take(
                        i as int,
                    ).contains(x.position) ==> found@.contains(x),
            decreases positions@.len() - i,
        {
            let position = positions[i];
            let ghost before = found@;
            let ghost seen = positions@.take(i as int);
            let location = BlockLocation { position, lod_index: l as u8 };
            let modified = match map.get_block(position) {
                Some(block) => block.is_modified(),
                None => false,
            };
            proof {
                assert(positions@.take(i + 1) =~= seen.push(position));
                assert(!seen.contains(position)) by {
                    if seen.contains(position) {
                        let k = choose|k: int| 0 <= k < seen.len() && seen[k] == position;
                        assert(positions@[k] == positions@[i as int]);
                    }
                }
                assert forall|x: Vector3i| positions@.take(i + 1).contains(x) == (seen.contains(x)
                    || x == position) by {
                    if seen.contains(x) {
                        let k = choose|k: int| 0 <= k < seen.len() && seen[k] == x;
                        assert(positions@.take(i + 1)[k] == x);
                    }
                    assert(positions@.take(i + 1)[i as int] == position);
                    let more = positions@.take(i + 1);
                    if more.contains(x) && x != position {
                        let k = choose|k: int| 0 <= k < more.len() && more[k] == x;
                        assert(seen[k] == x);
                    }
                }
            }
            if modified {
                found.push(location);
                proof {
                    assert(dirty_at(d, location));
                    assert(!before.contains(location)) by {
                        if before.contains(location) {
                            let k = choose|k: int|
                                0 <= k < before.len() && before[k] == location;
                            assert(before[k].lod_index <= l);
                        }
                    }
                    assert(found@[before.len() as int] == location);
                    assert forall|x: BlockLocation| before.contains(x) implies found@.contains(
                        x,
                    ) by {
                        let k = choose|k: int| 0 <= k < before.len() && before[k] == x;
                        assert(found@[k] == x);
                    }
                }
            }
            proof {
                assert forall|x: BlockLocation|
                    x.lod_index == l && #[trigger] dirty_at(d, x) && positions@.take(
                        i + 1,
                    ).contains(x.position) implies found@.contains(x) by {
                    if x.position == position {
                        assert(x == location);
                    }
                }
            }
            i = i + 1;
        }
        proof {
            assert(positions@.take(i as int) =~= positions@);
            assert forall|x: BlockLocation|
                x.lod_index < l + 1 && #[trigger] dirty_at(d, x) implies found@.contains(x) by {
                if x.lod_index == l {
                    assert(map@.blocks.dom().contains(x.position));
                    assert(positions@.to_set().contains(x.position));
                    assert(positions@.contains(x.position));
                }
            }
        }
        l = l + 1;
    }
    let ghost unsorted = found@;
    let places = sorting::sort_by_key(found);
    proof {
        sorting::lemma_same_members(places@, unsorted);
        assert forall|i: int, j: int| 0 <= i < j < places@.len() implies (
        #[trigger] places@[i]).key() < (#[trigger] places@[j]).key() by {
            assert(places@[i].key() <= places@[j].key());
            transaction::lemma_location_key(places@[i], places@[j]);
        }
        assert forall|x: BlockLocation| #[trigger] places@.contains(x) <==> dirty_at(d, x) by {
            assert(places@.contains(x) == unsorted.contains(x));
            if unsorted.contains(x) {
                let k = choose|k: int| 0 <= k < unsorted.len() && unsorted[k] == x;
                assert(dirty_at(d, unsorted[k]));
            }
        }
    }
    places
}

/// A block has voxels that take memory of their own.
pub open spec fn stores_voxels(b: BufferModel) -> bool {
    exists|c: int| 0 <= c < MAX_CHANNELS && (#[trigger] b.channels[c]).values.len() > 0
}

/// Memory decides whether there is room for more than the first `room` blocks:
/// the next one can be copied and has voxels that take some.
pub open spec fn copy_needs_room(d: DataModel, places: Seq<BlockLocation>, room: nat) -> bool {
    &&& room < places.len()
    &&& dirty_error(d, places[room as int]) is None
    &&& stores_voxels(dirty_payload(d, places[room as int]).voxels)
}

/// Copies of the voxels of the first blocks.
spec fn copied(d: DataModel, places: Seq<BlockLocation>, copies: Seq<VoxelBuffer>) -> bool {
    &&& copies.len() <= places.len()
    &&& forall|k: int|
        0 <= k < copies.len() ==> dirty_error(d, #[trigger] places[k]) is None && copies[k].wf()
            && copies[k]@ == dirty_payload(d, places[k]).voxels
}

/// Blocks before the first `n` are no obstacle to copying.
proof fn lemma_no_error(d: DataModel, places: Seq<BlockLocation>, n: int)
    requires
        0 <= n <= places.len(),
        forall|k: int| 0 <= k < n ==> dirty_error(d, #[trigger] places[k]) is None,
    ensures
        collections::first_some(places.take(n), dirty_errors(d)) is None,
{
    let first = places.take(n);
    collections::lemma_first_some_facts(first, dirty_errors(d));
    assert forall|k: int| 0 <= k < first.len() implies dirty_errors(d)(
        #[trigger] first[k],
    ) is None by {
        assert(first[k] == places[k]);
    }
}

/// A block that cannot be copied ends the copying, however much room there is
/// behind it.
proof fn lemma_room_behind(d: DataModel, places: Seq<BlockLocation>, few: nat, room: nat)
    requires
        few < places.len(),
        few <= room,
        dirty_error(d, places[few as int]) is Some,
    ensures
        copies_refusal(d, places, None, few) == copies_refusal(d, places, None, room),
{
    let errors = dirty_errors(d);
    collections::lemma_first_some_take(places, errors, few as int);
    assert(errors(places[few as int]) is Some);
    if room < places.len() {
        let more = places.take(room as int + 1);
        collections::lemma_first_some_facts(more, errors);
        assert(more[few as int] == places[few as int]);
        assert(errors(more[few as int]) is Some);
    }
}

impl SharedVoxelDataTransactionPreview {
    /// Copies all modified blocks for saving. Nothing changes: the operations
    /// have to be committed with a transaction of this preview. Where nothing is
    /// modified, there is nothing to copy.
    pub fn prepare_resident_dirty_copies(&self, data: &SharedVoxelData) -> (r: Result<
        PreparedResidentDirtyCopies,
        SharedVoxelDataMutationError,
    >)
        requires
            data.wf(),
        ensures
            exists|
                places: Seq<BlockLocation>,
                failed: Option<SharedVoxelDataTransactionReservation>,
                room: nat,
            | #[trigger]
                copies_outcome(data@.data, self@, places, failed, room, r) && (failed matches Some(
                    x,
                ) ==> is_dirty_list(x) && places.len() > 0) && (room >= places.len() || dirty_error(
                    data@.data,
                    places[room as int],
                ) is Some || copy_needs_room(data@.data, places, room)),
            shared_marks::nothing_dirty(data@.data.lods) ==> r is Ok,
    {
        let places = dirty_locations(data);
        let ghost d = data@.data;
        let ghost listed = places@;
        let mut operations: Vec<SharedVoxelDataTransactionOperation> = Vec::new();
        let mut snapshots: Vec<SharedVoxelDataTransactionBlockSnapshot> = Vec::new();
        let mut payloads: Vec<RevisionedBlockToSave> = Vec::new();
        let n: usize = places.len();
        let failed = if n > 0 && operations.try_reserve(n).is_err() {
            Some(SharedVoxelDataTransactionReservation::OperationStorage)
        } else if n > 0 && snapshots.try_reserve(n).is_err() {
            Some(SharedVoxelDataTransactionReservation::PreviewSnapshotStorage)
        } else if n > 0 && payloads.try_reserve(n).is_err() {
            Some(SharedVoxelDataTransactionReservation::ResidentDirtyPayloadStorage)
        } else {
            None
        };
        proof {
            if shared_marks::nothing_dirty(d.lods) && n > 0 {
                assert(listed.contains(listed[0]));
                assert(dirty_at(d, listed[0]));
                assert(!map_areas::modified_at(
                    d.lods[listed[0].lod_index as int],
                    listed[0].position,
                ));
            }
        }
        match failed {
            Some(reservation) => {
                let r = Err(
                    SharedVoxelDataMutationError::PreparedTransactionCapacityReservationFailed {
                        reservation,
                    },
                );
                assert(copies_outcome(d, self@, listed, failed, listed.len(), r));
                return r;
            },
            None => {},
        }
        let copies = try_copy_voxels(data, &places);
        let ghost room = copies@.len();
        let r = self.copy_places(data, &places, operations, snapshots, payloads, copies);
        proof {
            assert(copies_outcome(d, self@, listed, failed, room, r));
            if n == 0 {
                assert(collections::first_some(listed, dirty_errors(d)) is None);
            }
        }
        r
    }

    /// `prepare_resident_dirty_copies`, where `failed` is the reservation that
    /// fails, and there is room for the voxels of the first `room` blocks.
    pub fn prepare_resident_dirty_copies_reserved(
        &self,
        data: &SharedVoxelData,
        failed: Option<SharedVoxelDataTransactionReservation>,
        room: usize,
    ) -> (r: Result<PreparedResidentDirtyCopies, SharedVoxelDataMutationError>)
        requires
            data.wf(),
        ensures
            exists|places: Seq<BlockLocation>| #[trigger]
                copies_outcome(data@.data, self@, places, failed, room as nat, r) && places.len()
                    <= usize::MAX,
    {
        let places = dirty_locations(data);
        let ghost d = data@.data;
        let ghost listed = places@;
        match failed {
            Some(SharedVoxelDataTransactionReservation::OperationStorage)
            | Some(SharedVoxelDataTransactionReservation::PreviewSnapshotStorage)
            | Some(SharedVoxelDataTransactionReservation::ResidentDirtyPayloadStorage) => {
                let r = Err(
                    SharedVoxelDataMutationError::PreparedTransactionCapacityReservationFailed {
                        reservation: failed.unwrap(),
                    },
                );
                assert(copies_outcome(d, self@, listed, failed, room as nat, r));
                return r;
            },
            _ => {},
        }
        let copies = copy_voxels(data, &places, room);
        let ghost few = copies@.len();
        proof {
            if few < room && few < listed.len() {
                lemma_room_behind(d, listed, few, room as nat);
            }
        }
        let r = self.copy_places(data, &places, Vec::new(), Vec::new(), Vec::new(), copies);
        assert(copies_outcome(d, self@, listed, failed, room as nat, r));
        r
    }

    /// Puts the copies of the blocks at `places` into the given lists, as far as
    /// there are `copies`.
    fn copy_places(
        &self,
        data: &SharedVoxelData,
        places: &Vec<BlockLocation>,
        operations: Vec<SharedVoxelDataTransactionOperation>,
        snapshots: Vec<SharedVoxelDataTransactionBlockSnapshot>,
        payloads: Vec<RevisionedBlockToSave>,
        copies: Vec<VoxelBuffer>,
    ) -> (r: Result<PreparedResidentDirtyCopies, SharedVoxelDataMutationError>)
        requires
            data.wf(),
            lists_dirty(places@, data@.data),
            operations@.len() == 0,
            snapshots@.len() == 0,
            payloads@.len() == 0,
            copied(data@.data, places@, copies@),
        ensures
            copies_outcome(data@.data, self@, places@, None, copies@.len(), r),
    {
        let ghost d = data@.data;
        let ghost all = places@;
        let ghost given = copies@;
        let ghost errors = dirty_errors(d);
        let mut operations = operations;
        let mut snapshots = snapshots;
        let mut payloads = payloads;
        let mut copies = copies;
        let n: usize = copies.len();
        let mut i: usize = 0;
        proof {
            data.lemma_wf();
        }
        while i < n
            invariant
                i <= n,
                n == given.len(),
                n <= all.len(),
                all == places@,
                d == data@.data,
                data.wf(),
                d.wf(),
                lists_dirty(all, d),
                copied(d, all, given),
                copies@.len() == n,
                forall|k: int| i <= k < n ==> #[trigger] copies@[k] == given[k],
                operations@.len() == i,
                snapshots@.len() == i,
                payloads@.len() == i,
                prepared_transaction::operations_wf(operations@),
                payloads_wf(payloads@),
                forall|k: int|
                    0 <= k < i ==> (#[trigger] operations@[k])@ == (OperationModel::ClearModified {
                        location: all[k],
                    }),
                forall|k: int|
                    0 <= k < i ==> (#[trigger] snapshots@[k])@ == transaction_preview::snapshot_of(
                        d,
                        all[k],
                        self@,
                    ),
                forall|k: int|
                    0 <= k < i ==> (#[trigger] payloads@[k])@ == dirty_payload(d, all[k]),
            decreases n - i,
        {
            let location = places[i];
            proof {
                assert(all.contains(all[i as int]));
                assert(dirty_at(d, location));
                assert(dirty_error(d, all[i as int]) is None);
            }
            let mut voxels = VoxelBuffer::new(Allocator::Default);
            std::mem::swap(&mut voxels, &mut copies[i]);
            assert(voxels == given[i as int]);
            let block_revision: u64 = data.lod(location.lod_index as usize).key_revision(
                location.position,
            );
            match self.block_snapshot(data, location) {
                Some(snapshot) => {
                    snapshots.push(snapshot);
                },
                None => {
                    assert(false);
                },
            }
            operations.push(SharedVoxelDataTransactionOperation::ClearModified { location });
            payloads.push(RevisionedBlockToSave { location, block_revision, voxels });
            i = i + 1;
        }
        proof {
            lemma_no_error(d, all, n as int);
        }
        if n < places.len() {
            proof {
                collections::lemma_first_some_take(all, errors, n as int);
                assert(all.contains(all[n as int]));
                assert(dirty_at(d, all[n as int]));
            }
            let e = match copy_error(data, places[n]) {
                Some(e) => {
                    proof {
                        assert(errors(all[n as int]) == Some(e));
                        collections::lemma_first_some_prefix(all, errors, n + 1);
                    }
                    e
                },
                None => {
                    assert(errors(all[n as int]) is None);
                    SharedVoxelDataMutationError::PreparedTransactionCapacityReservationFailed {
                        reservation: SharedVoxelDataTransactionReservation::ResidentDirtyPayloadCopy,
                    }
                },
            };
            return Err(e);
        }
        let ghost copies = dirty_copies(d, self@, all);
        proof {
            assert(all.take(n as int) =~= all);
            assert(prepared_transaction::operations_of(operations@) =~= copies.operations);
            assert(snapshots_of(snapshots@) =~= copies.snapshots);
            assert(payloads_of(payloads@) =~= copies.payloads);
        }
        Ok(PreparedResidentDirtyCopies { operations, snapshots, payloads })
    }
}

/// Why a modified block cannot be copied or taken as saved.
fn copy_error(data: &SharedVoxelData, location: BlockLocation) -> (r: Option<
    SharedVoxelDataMutationError,
>)
    requires
        data.wf(),
        dirty_at(data@.data, location),
    ensures
        r == dirty_error(data@.data, location),
{
    proof {
        data.lemma_wf();
    }
    let lod_index: usize = location.lod_index as usize;
    let map = data.lod(lod_index);
    let has_voxels = match map.get_block(location.position) {
        Some(block) => block.has_voxels(),
        None => false,
    };
    if !has_voxels {
        Some(SharedVoxelDataMutationError::DirtyBlockMissingVoxels { location })
    } else if map.key_revision(location.position) == u64::MAX {
        Some(
            SharedVoxelDataMutationError::KeyRevisionOverflow {
                position: location.position,
                lod_index,
            },
        )
    } else {
        None
    }
}

/// Copies the voxels of one block after the other, until one cannot be copied or
/// there is no memory.
fn try_copy_voxels(data: &SharedVoxelData, places: &Vec<BlockLocation>) -> (copies: Vec<
    VoxelBuffer,
>)
    requires
        data.wf(),
        lists_dirty(places@, data@.data),
    ensures
        copied(data@.data, places@, copies@),
        copies@.len() < places@.len() ==> dirty_error(
            data@.data,
            places@[copies@.len() as int],
        ) is Some || copy_needs_room(data@.data, places@, copies@.len()),
{
    let ghost d = data@.data;
    let ghost all = places@;
    let mut copies: Vec<VoxelBuffer> = Vec::new();
    let mut i: usize = 0;
    proof {
        data.lemma_wf();
    }
    while i < places.len()
        invariant
            i <= all.len(),
            all == places@,
            d == data@.data,
            data.wf(),
            lists_dirty(all, d),
            copies@.len() == i,
            copied(d, all, copies@),
        decreases all.len() - i,
    {
        let location = places[i];
        proof {
            assert(all.contains(all[i as int]));
            assert(dirty_at(d, location));
        }
        if copy_error(data, location).is_some() {
            return copies;
        }
        match data.lod(location.lod_index as usize).get_block(location.position) {
            Some(block) => {
                match block.voxels().try_copy_to_owned() {
                    Ok(copy) => {
                        copies.push(copy);
                    },
                    Err(_) => {
                        assert(stores_voxels(dirty_payload(d, location).voxels));
                        return copies;
                    },
                }
            },
            None => {
                assert(false);
            },
        }
        i = i + 1;
    }
    copies
}

/// Copies the voxels of one block after the other, until one cannot be copied or
/// there are `most`.
fn copy_voxels(data: &SharedVoxelData, places: &Vec<BlockLocation>, most: usize) -> (copies: Vec<
    VoxelBuffer,
>)
    requires
        data.wf(),
        lists_dirty(places@, data@.data),
    ensures
        copied(data@.data, places@, copies@),
        copies@.len() <= most,
        copies@.len() < places@.len() && copies@.len() < most ==> dirty_error(
            data@.data,
            places@[copies@.len() as int],
        ) is Some,
{
    let ghost d = data@.data;
    let ghost all = places@;
    let mut copies: Vec<VoxelBuffer> = Vec::new();
    let mut i: usize = 0;
    proof {
        data.lemma_wf();
    }
    while i < places.len() && i < most
        invariant
            i <= all.len(),
            i <= most,
            all == places@,
            d == data@.data,
            data.wf(),
            lists_dirty(all, d),
            copies@.len() == i,
            copied(d, all, copies@),
        decreases all.len() - i,
    {
        let location = places[i];
        proof {
            assert(all.contains(all[i as int]));
            assert(dirty_at(d, location));
        }
        if copy_error(data, location).is_some() {
            return copies;
        }
        match data.lod(location.lod_index as usize).get_block(location.position) {
            Some(block) => {
                copies.push(block.voxels().copy_to_owned());
            },
            None => {
                assert(false);
            },
        }
        i = i + 1;
    }
    copies
}

} // verus!
