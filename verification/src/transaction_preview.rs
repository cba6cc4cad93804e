//! Previews of transactions: looking at block keys first, and preparing
//! operations only if none of the keys looked at has changed since.

use crate::collections;
use crate::math::Vector3i;
use crate::mutation_error::{
    SharedVoxelDataMutationError, SharedVoxelDataTransactionReservation,
};
use crate::prepared_transaction;
use crate::prepared_transaction::{
    PreparedSharedVoxelDataTransaction, PreparedSharedVoxelDataTransactionPrepareError,
    TransactionLists, TransactionModel,
};
use crate::revision;
use crate::revision::VoxelDataKeyRevision;
use crate::shared_data::{
    DataLineage, SharedModel, SharedVoxelData, SharedVoxelDataSettingsSnapshot,
};
use crate::sorting;
use crate::sorting::Keyed;
use crate::transaction;
use crate::transaction::{
    OperationModel, PreparedSharedVoxelDataBlockState, PreparedSharedVoxelDataExpectation,
    SharedVoxelDataTransactionOperation,
};
use crate::voxel_data::{BlockLocation, DataModel};
use crate::voxel_data_block::VoxelDataBlock;
use crate::voxel_data_map::{MapModel, VoxelDataMap};
use vstd::prelude::*;

verus! {

/// What tells one preview from all others.
#[derive(Debug)]
pub struct PreviewLineage {
    /// The data that the preview looks at.
    pub data: DataLineage,
    /// The number of the preview.
    pub id: u64,
    pub settings_revision: u64,
}

impl PreviewLineage {
    /// Both are of one preview.
    pub fn same_as(&self, other: &PreviewLineage) -> (same: bool)
        ensures
            same == (*self == *other),
    {
        self.data.same_as(&other.data) && self.id == other.id && self.settings_revision
            == other.settings_revision
    }
}

impl Clone for PreviewLineage {
    fn clone(&self) -> (l: PreviewLineage)
        ensures
            l == *self,
    {
        PreviewLineage {
            data: self.data.clone(),
            id: self.id,
            settings_revision: self.settings_revision,
        }
    }
}

/// What a block key looked like in a preview.
#[derive(Debug)]
pub struct SharedVoxelDataTransactionBlockSnapshot {
    lineage: PreviewLineage,
    location: BlockLocation,
    revision: VoxelDataKeyRevision,
    state: Option<PreparedSharedVoxelDataBlockState>,
}

/// What a snapshot holds.
pub struct SnapshotModel {
    pub lineage: PreviewLineage,
    pub location: BlockLocation,
    pub revision: VoxelDataKeyRevision,
    pub state: Option<PreparedSharedVoxelDataBlockState>,
}

impl View for SharedVoxelDataTransactionBlockSnapshot {
    type V = SnapshotModel;

    closed spec fn view(&self) -> SnapshotModel {
        SnapshotModel {
            lineage: self.lineage,
            location: self.location,
            revision: self.revision,
            state: self.state,
        }
    }
}

impl Clone for SharedVoxelDataTransactionBlockSnapshot {
    fn clone(&self) -> (s: SharedVoxelDataTransactionBlockSnapshot)
        ensures
            s == *self,
    {
        SharedVoxelDataTransactionBlockSnapshot {
            lineage: self.lineage.clone(),
            location: self.location,
            revision: self.revision,
            state: self.state,
        }
    }
}

impl SharedVoxelDataTransactionBlockSnapshot {
    pub fn location(&self) -> (l: BlockLocation)
        ensures
            l == self@.location,
    {
        self.location
    }

    pub fn revision(&self) -> (r: VoxelDataKeyRevision)
        ensures
            r == self@.revision,
    {
        self.revision
    }

    pub fn is_present(&self) -> (b: bool)
        ensures
            b == self@.state is Some,
    {
        self.state.is_some()
    }

    pub fn viewers(&self) -> (n: u32)
        ensures
            n == match self@.state {
                Some(s) => s.viewers,
                None => 0,
            },
    {
        match self.state {
            Some(s) => s.viewers,
            None => 0,
        }
    }

    pub fn is_modified(&self) -> (b: bool)
        ensures
            b == match self@.state {
                Some(s) => s.modified,
                None => false,
            },
    {
        match self.state {
            Some(s) => s.modified,
            None => false,
        }
    }

    pub fn is_edited(&self) -> (b: bool)
        ensures
            b == match self@.state {
                Some(s) => s.edited,
                None => false,
            },
    {
        match self.state {
            Some(s) => s.edited,
            None => false,
        }
    }

    pub fn has_voxels(&self) -> (b: bool)
        ensures
            b == match self@.state {
                Some(s) => s.has_voxels,
                None => false,
            },
    {
        match self.state {
            Some(s) => s.has_voxels,
            None => false,
        }
    }
}

impl Keyed for SharedVoxelDataTransactionBlockSnapshot {
    open spec fn key(&self) -> int {
        transaction::location_key(self@.location)
    }

    fn sort_key(&self) -> (k: u128) {
        transaction::key_of_location(self.location)
    }
}

/// What can be seen of the block at `p`.
pub open spec fn state_at(m: MapModel, p: Vector3i) -> Option<PreparedSharedVoxelDataBlockState> {
    if m.has(p) {
        Some(transaction::state_of(m.blocks[p]))
    } else {
        None
    }
}

/// What a snapshot of a key at an existing level shows.
pub open spec fn snapshot_of(d: DataModel, location: BlockLocation, lineage: PreviewLineage) ->
    SnapshotModel {
    let m = d.lods[location.lod_index as int];
    SnapshotModel {
        lineage,
        location,
        revision: m.key_revision(location.position),
        state: state_at(m, location.position),
    }
}

/// The conflict, if a key no longer looks as a snapshot shows it.
pub open spec fn snapshot_conflict(d: DataModel, s: SnapshotModel) -> Option<
    SharedVoxelDataMutationError,
> {
    let m = d.lods[s.location.lod_index as int];
    let p = s.location.position;
    if m.key_revision(p) != s.revision || state_at(m, p) != s.state {
        Some(
            SharedVoxelDataMutationError::ConcurrentDataMutation {
                position: p,
                lod_index: s.location.lod_index as usize,
                expected_revision: s.revision,
                actual_revision: m.key_revision(p),
            },
        )
    } else {
        None
    }
}

/// Looking for a conflict ends at a snapshot with a conflict, and without one at
/// a level that does not exist.
pub open spec fn snapshot_answers(d: DataModel) -> spec_fn(
    SharedVoxelDataTransactionBlockSnapshot,
) -> Option<Option<SharedVoxelDataMutationError>> {
    |s: SharedVoxelDataTransactionBlockSnapshot|
        if s@.location.lod_index >= d.lods.len() {
            Some(None)
        } else {
            match snapshot_conflict(d, s@) {
                Some(e) => Some(Some(e)),
                None => None,
            }
        }
}

/// The first conflict of the snapshots in front of the first one at a level that
/// does not exist.
pub open spec fn first_conflict(
    d: DataModel,
    snapshots: Seq<SharedVoxelDataTransactionBlockSnapshot>,
) -> Option<SharedVoxelDataMutationError> {
    match collections::first_some(snapshots, snapshot_answers(d)) {
        Some(answer) => answer,
        None => None,
    }
}

impl SharedVoxelData {
    /// Begins a preview, with the settings as they are now.
    pub fn begin_transaction_preview(&mut self) -> (p: SharedVoxelDataTransactionPreview)
        requires
            old(self).wf(),
            old(self)@.previews < u64::MAX,
        ensures
            final(self).wf(),
            final(self)@ == (SharedModel {
                previews: (old(self)@.previews + 1) as u64,
                ..old(self)@
            }),
            p@ == (PreviewLineage {
                data: old(self)@.lineage,
                id: final(self)@.previews,
                settings_revision: old(self)@.settings_revision,
            }),
            p.snapshot().shows(old(self)@),
    {
        let id: u64 = self.next_preview();
        self.preview(id)
    }

    /// A preview with the given number.
    pub(crate) fn preview(&self, id: u64) -> (p: SharedVoxelDataTransactionPreview)
        ensures
            p@ == (PreviewLineage {
                data: self@.lineage,
                id,
                settings_revision: self@.settings_revision,
            }),
            p.snapshot().shows(self@),
    {
        let settings = self.settings_snapshot();
        SharedVoxelDataTransactionPreview {
            lineage: PreviewLineage {
                data: self.lineage().clone(),
                id,
                settings_revision: settings.revision,
            },
            settings,
        }
    }

    /// What a key looks like, if its level exists.
    fn transaction_block_snapshot(&self, location: BlockLocation, lineage: PreviewLineage) -> (
        r: Option<SharedVoxelDataTransactionBlockSnapshot>)
        requires
            self.wf(),
        ensures
            r is Some <==> location.lod_index < self@.data.lods.len(),
            r matches Some(s) ==> s@ == snapshot_of(self@.data, location, lineage),
    {
        let lod_index: usize = location.lod_index as usize;
        if lod_index >= self.lod_count() {
            return None;
        }
        let map = self.lod(lod_index);
        let revision = revision::current_key_revision(map, location.position);
        let state = match map.get_block(location.position) {
            Some(block) => Some(transaction::block_state(block)),
            None => None,
        };
        Some(SharedVoxelDataTransactionBlockSnapshot { lineage, location, revision, state })
    }

    /// What a key looks like, and a copy of its block.
    fn transaction_block_draft(&self, location: BlockLocation, lineage: PreviewLineage) -> (
        r: Option<(SharedVoxelDataTransactionBlockSnapshot, Option<VoxelDataBlock>)>)
        requires
            self.wf(),
        ensures
            r is Some <==> location.lod_index < self@.data.lods.len(),
            r matches Some(s) ==> s.0@ == snapshot_of(self@.data, location, lineage),
            r matches Some(s) ==> (s.1 is Some <==> self@.data.has_block(
                location.position,
                location.lod_index as int,
            )) && (s.1 matches Some(b) ==> b.wf() && b@
                == self@.data.lods[location.lod_index as int].blocks[location.position]),
    {
        match self.transaction_block_snapshot(location, lineage) {
            Some(snapshot) => {
                let block = self.block_snapshot(location.position, location.lod_index as usize);
                Some((snapshot, block))
            },
            None => None,
        }
    }

    /// The first conflict of the snapshots.
    fn first_transaction_snapshot_conflict(
        &self,
        snapshots: &Vec<SharedVoxelDataTransactionBlockSnapshot>,
    ) -> (r: Option<SharedVoxelDataMutationError>)
        requires
            self.wf(),
        ensures
            r == first_conflict(self@.data, snapshots@),
    {
        let ghost d = self@.data;
        let ghost answer = snapshot_answers(d);
        let ghost all = snapshots@;
        let mut i: usize = 0;
        assert(collections::first_some(all.take(0), answer) is None);
        while i < snapshots.len()
            invariant
                i <= all.len(),
                all == snapshots@,
                self.wf(),
                d == self@.data,
                answer == snapshot_answers(d),
                collections::first_some(all.take(i as int), answer) is None,
            decreases all.len() - i,
        {
            let snapshot = &snapshots[i];
            proof {
                collections::lemma_first_some_take(all, answer, i as int);
            }
            if snapshot.location.lod_index as usize >= self.lod_count() {
                proof {
                    collections::lemma_first_some_prefix(all, answer, i + 1);
                }
                return None;
            }
            let conflict = self.check_snapshot(snapshot);
            if conflict.is_some() {
                proof {
                    collections::lemma_first_some_prefix(all, answer, i + 1);
                }
                return conflict;
            }
            i = i + 1;
        }
        assert(all.take(i as int) =~= all);
        None
    }

    /// The conflict, if a key no longer looks as a snapshot shows it.
    fn check_snapshot(&self, expected: &SharedVoxelDataTransactionBlockSnapshot) -> (r: Option<
        SharedVoxelDataMutationError,
    >)
        requires
            self.wf(),
            expected@.location.lod_index < self@.data.lods.len(),
        ensures
            r == snapshot_conflict(self@.data, expected@),
    {
        let location = expected.location;
        match self.transaction_block_snapshot(location, expected.lineage.clone()) {
            Some(actual) => {
                if actual.revision != expected.revision || !same_state(
                    actual.state,
                    expected.state,
                ) {
                    Some(
                        SharedVoxelDataMutationError::ConcurrentDataMutation {
                            position: location.position,
                            lod_index: location.lod_index as usize,
                            expected_revision: expected.revision,
                            actual_revision: actual.revision,
                        },
                    )
                } else {
                    None
                }
            },
            None => None,
        }
    }
}

/// Both keys have no block, or blocks that look the same.
fn same_state(
    a: Option<PreparedSharedVoxelDataBlockState>,
    b: Option<PreparedSharedVoxelDataBlockState>,
) -> (same: bool)
    ensures
        same == (a == b),
{
    match (a, b) {
        (Some(a), Some(b)) => a == b,
        (None, None) => true,
        _ => false,
    }
}

/// A look at the block keys of shared data under fixed settings. Its snapshots
/// can only be used with itself.
pub struct SharedVoxelDataTransactionPreview {
    lineage: PreviewLineage,
    settings: SharedVoxelDataSettingsSnapshot,
}

impl View for SharedVoxelDataTransactionPreview {
    type V = PreviewLineage;

    closed spec fn view(&self) -> PreviewLineage {
        self.lineage
    }
}

impl SharedVoxelDataTransactionPreview {
    /// The settings that define the preview.
    pub closed spec fn snapshot(&self) -> SharedVoxelDataSettingsSnapshot {
        self.settings
    }

    /// The settings that define the preview.
    pub fn settings(&self) -> (s: &SharedVoxelDataSettingsSnapshot)
        ensures
            *s == self.snapshot(),
    {
        &self.settings
    }

    pub fn block_size(&self) -> (n: u32)
        ensures
            n == crate::voxel_data_map::BLOCK_SIZE,
    {
        VoxelDataMap::BLOCK_SIZE
    }

    /// What a key of the data looks like, if its level exists.
    pub fn block_snapshot(&self, data: &SharedVoxelData, location: BlockLocation) -> (r: Option<
        SharedVoxelDataTransactionBlockSnapshot,
    >)
        requires
            data.wf(),
        ensures
            r is Some <==> location.lod_index < data@.data.lods.len(),
            r matches Some(s) ==> s@ == snapshot_of(data@.data, location, self@),
    {
        data.transaction_block_snapshot(location, self.lineage.clone())
    }

    /// What a key of the data looks like, and a copy of its block.
    pub fn block_draft(&self, data: &SharedVoxelData, location: BlockLocation) -> (r: Option<
        (SharedVoxelDataTransactionBlockSnapshot, Option<VoxelDataBlock>),
    >)
        requires
            data.wf(),
        ensures
            r is Some <==> location.lod_index < data@.data.lods.len(),
            r matches Some(s) ==> s.0@ == snapshot_of(data@.data, location, self@),
            r matches Some(s) ==> (s.1 is Some <==> data@.data.has_block(
                location.position,
                location.lod_index as int,
            )) && (s.1 matches Some(b) ==> b.wf() && b@
                == data@.data.lods[location.lod_index as int].blocks[location.position]),
    {
        data.transaction_block_draft(location, self.lineage.clone())
    }
}

/// The first `n` snapshots, in the order of their keys, have neighbours with the
/// same key.
pub open spec fn snapshots_repeat(
    s: Seq<SharedVoxelDataTransactionBlockSnapshot>,
    n: int,
) -> bool {
    exists|k: int| 0 < k < n && (#[trigger] s[k])@.location == s[k - 1]@.location
}

/// There is an operation on the key.
pub open spec fn operated(ops: Seq<OperationModel>, location: BlockLocation) -> bool {
    exists|k: int| 0 <= k < ops.len() && (#[trigger] ops[k]).place() == location
}

/// There is a snapshot of the key.
pub open spec fn looked_at(
    s: Seq<SharedVoxelDataTransactionBlockSnapshot>,
    location: BlockLocation,
) -> bool {
    exists|k: int| 0 <= k < s.len() && (#[trigger] s[k])@.location == location
}

/// Snapshots and operations do not go together: a key was looked at twice, or
/// there is an operation on a key that was not looked at.
pub open spec fn set_mismatch(
    ops: Seq<OperationModel>,
    s: Seq<SharedVoxelDataTransactionBlockSnapshot>,
) -> bool {
    snapshots_repeat(s, s.len() as int) || exists|k: int|
        0 <= k < ops.len() && !looked_at(s, (#[trigger] ops[k]).place())
}

/// Why a snapshot stands against preparing: its key cannot be observed, or has
/// changed.
pub open spec fn snapshot_errors(d: DataModel, ops: Seq<OperationModel>) -> spec_fn(
    SharedVoxelDataTransactionBlockSnapshot,
) -> Option<SharedVoxelDataMutationError> {
    |s: SharedVoxelDataTransactionBlockSnapshot|
        if !operated(ops, s@.location) && transaction::observation_error(
            d,
            s@.location,
        ) is Some {
            transaction::observation_error(d, s@.location)
        } else {
            snapshot_conflict(d, s@)
        }
}

/// Why operations and snapshots, both in the order of their keys, cannot be
/// prepared together.
pub open spec fn preview_refusal(
    d: DataModel,
    ops: Seq<OperationModel>,
    s: Seq<SharedVoxelDataTransactionBlockSnapshot>,
    failed: Option<SharedVoxelDataTransactionReservation>,
) -> Option<SharedVoxelDataMutationError> {
    match prepared_transaction::prepare_refusal(d, ops, failed) {
        Some(e) => match first_conflict(d, s) {
            Some(conflict) => Some(conflict),
            None => Some(e),
        },
        None => if set_mismatch(ops, s) {
            Some(SharedVoxelDataMutationError::PreparedTransactionPreviewSetMismatch)
        } else if failed == Some(SharedVoxelDataTransactionReservation::ObservationStorage) {
            Some(
                prepared_transaction::no_room(
                    SharedVoxelDataTransactionReservation::ObservationStorage,
                ),
            )
        } else {
            collections::first_some(s, snapshot_errors(d, ops))
        },
    }
}

/// The keys that were looked at but are not changed, as they have to be.
pub open spec fn observed_keys(
    d: DataModel,
    ops: Seq<OperationModel>,
    s: Seq<SharedVoxelDataTransactionBlockSnapshot>,
) -> Seq<PreparedSharedVoxelDataExpectation> {
    s.filter(|x: SharedVoxelDataTransactionBlockSnapshot| !operated(ops, x@.location)).map_values(
        |x: SharedVoxelDataTransactionBlockSnapshot|
            transaction::observation_of(d, x@.location),
    )
}

/// `b` has the snapshots of `a`, in the order of their keys.
pub open spec fn snapshots_sorted(
    a: Seq<SharedVoxelDataTransactionBlockSnapshot>,
    b: Seq<SharedVoxelDataTransactionBlockSnapshot>,
) -> bool {
    sorting::in_order(b) && b.to_multiset() == a.to_multiset()
}

/// What comes of preparing operations together with snapshots. Where the
/// snapshots cannot even be copied, the operations come back as they were.
pub open spec fn preview_outcome(
    s: SharedModel,
    operations: Seq<SharedVoxelDataTransactionOperation>,
    snapshots: Seq<SharedVoxelDataTransactionBlockSnapshot>,
    sorted: Seq<SharedVoxelDataTransactionBlockSnapshot>,
    settings_revision: u64,
    failed: Option<SharedVoxelDataTransactionReservation>,
    r: Result<
        PreparedSharedVoxelDataTransaction,
        PreparedSharedVoxelDataTransactionPrepareError,
    >,
) -> bool {
    if failed == Some(SharedVoxelDataTransactionReservation::PreviewSnapshotStorage) {
        r matches Err(e) && e.operations@ == operations && e.error
            == prepared_transaction::no_room(
            SharedVoxelDataTransactionReservation::PreviewSnapshotStorage,
        )
    } else {
        &&& snapshots_sorted(snapshots, sorted)
        &&& match r {
            Ok(t) => {
                let ops = prepared_transaction::operations_of(t.operations());
                &&& t.wf()
                &&& prepared_transaction::sorted_from(operations, t.operations())
                &&& preview_refusal(s.data, ops, sorted, failed) is None
                &&& t@ == (TransactionModel {
                    observations: observed_keys(s.data, ops, sorted),
                    ..prepared_transaction::freshly_prepared(s, ops, settings_revision)
                })
            },
            Err(e) => {
                &&& prepared_transaction::operations_wf(e.operations@)
                &&& prepared_transaction::sorted_from(operations, e.operations@)
                &&& preview_refusal(
                    s.data,
                    prepared_transaction::operations_of(e.operations@),
                    sorted,
                    failed,
                ) == Some(e.error)
            },
        }
    }
}

/// Snapshots in the order of their keys that have no neighbours with the same
/// key have increasing keys.
proof fn lemma_snapshots_increase(s: Seq<SharedVoxelDataTransactionBlockSnapshot>)
    requires
        sorting::in_order(s),
        !snapshots_repeat(s, s.len() as int),
    ensures
        forall|i: int, j: int|
            0 <= i < j < s.len() ==> (#[trigger] s[i]).key() < (#[trigger] s[j]).key(),
{
    assert forall|i: int, j: int| 0 <= i < j < s.len() implies (#[trigger] s[i]).key() < (
    #[trigger] s[j]).key() by {
        assert(s[i].key() <= s[j - 1].key());
        assert(s[j - 1].key() <= s[j].key());
        assert(s[j]@.location != s[j - 1]@.location);
        transaction::lemma_location_key(s[j - 1]@.location, s[j]@.location);
    }
}

/// Finds out for each snapshot whether there is an operation on its key. Both
/// lists are in the order of their keys. `None` if the two do not go together.
fn match_snapshots(
    operations: &Vec<SharedVoxelDataTransactionOperation>,
    snapshots: &Vec<SharedVoxelDataTransactionBlockSnapshot>,
) -> (r: Option<Vec<bool>>)
    requires
        sorting::in_order(operations@),
        sorting::in_order(snapshots@),
        forall|i: int, j: int|
            0 <= i < j < operations@.len() ==> (#[trigger] operations@[i])@.place() != (
            #[trigger] operations@[j])@.place(),
    ensures
        r is None <==> set_mismatch(
            prepared_transaction::operations_of(operations@),
            snapshots@,
        ),
        r matches Some(v) ==> v@.len() == snapshots@.len() && forall|k: int|
            0 <= k < v@.len() ==> #[trigger] v@[k] == operated(
                prepared_transaction::operations_of(operations@),
                snapshots@[k]@.location,
            ),
{
    let ghost ops = prepared_transaction::operations_of(operations@);
    let ghost all = snapshots@;
    let n: usize = snapshots.len();
    let mut i: usize = 1;
    while i < n
        invariant
            1 <= i,
            n == all.len(),
            all == snapshots@,
            i <= n || n == 0,
            !snapshots_repeat(all, i as int),
        decreases n - i,
    {
        if snapshots[i].location == snapshots[i - 1].location {
            assert(all[i as int]@.location == all[i - 1]@.location);
            return None;
        }
        assert forall|k: int| 0 < k < i + 1 implies (#[trigger] all[k])@.location != all[k
            - 1]@.location by {
            if k < i {
                assert(!snapshots_repeat(all, i as int));
            }
        }
        i = i + 1;
    }
    proof {
        if snapshots_repeat(all, n as int) {
            let k = choose|k: int| 0 < k < n && (#[trigger] all[k])@.location == all[k
                - 1]@.location;
            assert(0 < k < i);
        }
        lemma_snapshots_increase(all);
        assert forall|a: int, b: int| 0 <= a < b < operations@.len() implies (
        #[trigger] operations@[a]).key() < (#[trigger] operations@[b]).key() by {
            transaction::lemma_location_key(operations@[a]@.place(), operations@[b]@.place());
            assert(operations@[a].key() <= operations@[b].key());
        }
    }
    let mut flags: Vec<bool> = Vec::new();
    let mut j: usize = 0;
    let mut i: usize = 0;
    while i < n
        invariant
            i <= n,
            n == all.len(),
            all == snapshots@,
            j <= operations@.len(),
            ops == prepared_transaction::operations_of(operations@),
            !snapshots_repeat(all, n as int),
            forall|a: int, b: int|
                0 <= a < b < n ==> (#[trigger] all[a]).key() < (#[trigger] all[b]).key(),
            forall|a: int, b: int|
                0 <= a < b < operations@.len() ==> (#[trigger] operations@[a]).key() < (
                #[trigger] operations@[b]).key(),
            flags@.len() == i,
            forall|k: int|
                0 <= k < i ==> #[trigger] flags@[k] == operated(ops, all[k]@.location),
            forall|k: int| 0 <= k < j ==> looked_at(all, (#[trigger] ops[k]).place()),
            forall|k: int| 0 <= k < j && i < n ==> (#[trigger] operations@[k]).key() < all[i as int].key(),
            forall|k: int, q: int|
                j <= k < operations@.len() && 0 <= q < i ==> (#[trigger] operations@[k]).key() > (
                #[trigger] all[q]).key(),
        decreases n - i,
    {
        let place = snapshots[i].location;
        let mut found = false;
        let ghost old_j = j;
        if j < operations.len() {
            let here = operations[j].location();
            proof {
                assert(ops[j as int] == operations@[j as int]@);
                transaction::lemma_location_key(here, place);
            }
            if transaction::key_of_location(here) < transaction::key_of_location(place) {
                proof {
                    assert(!looked_at(all, ops[j as int].place())) by {
                        if looked_at(all, ops[j as int].place()) {
                            let k = choose|k: int|
                                0 <= k < all.len() && (#[trigger] all[k])@.location
                                    == ops[j as int].place();
                            assert(all[k].key() == operations@[j as int].key());
                            if k < i {
                                assert(operations@[j as int].key() > all[k].key());
                            } else if k > i {
                                assert(all[i as int].key() < all[k].key());
                            }
                        }
                    }
                }
                return None;
            }
            if here == place {
                found = true;
                j = j + 1;
            }
        }
        proof {
            assert(found == operated(ops, place)) by {
                if found {
                    assert(ops[old_j as int].place() == place);
                } else if operated(ops, place) {
                    let k = choose|k: int|
                        0 <= k < ops.len() && (#[trigger] ops[k]).place() == place;
                    assert(ops[k] == operations@[k]@);
                    assert(operations@[k].key() == all[i as int].key());
                    if k < old_j {
                        assert(operations@[k].key() < all[i as int].key());
                    } else {
                        assert(old_j < operations@.len());
                        if k > old_j {
                            assert(operations@[old_j as int].key() < operations@[k].key());
                        } else {
                            assert(ops[k].place() == operations@[old_j as int]@.place());
                        }
                    }
                }
            }
            assert forall|k: int| 0 <= k < j implies looked_at(
                all,
                (#[trigger] ops[k]).place(),
            ) by {
                if k == old_j {
                    assert(all[i as int]@.location == ops[k].place());
                }
            }
            assert forall|k: int| 0 <= k < j && i + 1 < n implies (
            #[trigger] operations@[k]).key() < all[i + 1].key() by {
                assert(all[i as int].key() < all[i + 1].key());
                if k == old_j {
                    assert(operations@[k].key() == all[i as int].key());
                }
            }
            assert forall|k: int, q: int| j <= k < operations@.len() && 0 <= q < i + 1 implies (
            #[trigger] operations@[k]).key() > (#[trigger] all[q]).key() by {
                if q == i {
                    assert(operations@[k]@ == ops[k]);
                    if found {
                        assert(operations@[old_j as int].key() < operations@[k].key());
                        assert(operations@[old_j as int].key() == all[i as int].key());
                    } else {
                        assert(operations@[old_j as int].key() <= operations@[k].key());
                        assert(operations@[old_j as int].key() >= all[i as int].key());
                        assert(operations@[old_j as int]@.place() != place);
                        transaction::lemma_location_key(
                            operations@[old_j as int]@.place(),
                            place,
                        );
                    }
                }
            }
        }
        flags.push(found);
        i = i + 1;
    }
    if j != operations.len() {
        proof {
            assert(!looked_at(all, ops[j as int].place())) by {
                if looked_at(all, ops[j as int].place()) {
                    let k = choose|k: int|
                        0 <= k < all.len() && (#[trigger] all[k])@.location
                            == ops[j as int].place();
                    assert(ops[j as int] == operations@[j as int]@);
                    assert(operations@[j as int].key() > all[k].key());
                }
            }
        }
        return None;
    }
    assert forall|k: int| 0 <= k < ops.len() implies looked_at(all, (#[trigger] ops[k]).place()) by {
        assert(k < j);
    }
    Some(flags)
}

impl SharedVoxelData {
    /// Prepares operations, if all keys that were looked at are still as the
    /// snapshots show them. `failed` is the reservation that fails.
    pub fn prepare_transaction_from_snapshots_reserved(
        &self,
        operations: Vec<SharedVoxelDataTransactionOperation>,
        snapshots: &Vec<SharedVoxelDataTransactionBlockSnapshot>,
        expected_settings_revision: u64,
        lists: TransactionLists,
        failed: Option<SharedVoxelDataTransactionReservation>,
    ) -> (r: Result<
        PreparedSharedVoxelDataTransaction,
        PreparedSharedVoxelDataTransactionPrepareError,
    >)
        requires
            self.wf(),
            prepared_transaction::operations_wf(operations@),
            lists.blank(),
        ensures
            exists|sorted: Seq<SharedVoxelDataTransactionBlockSnapshot>| #[trigger]
                preview_outcome(
                    self@,
                    operations@,
                    snapshots@,
                    sorted,
                    expected_settings_revision,
                    failed,
                    r,
                ),
    {
        let ghost d = self@.data;
        let ghost given = operations@;
        proof {
            self.lemma_wf();
        }
        if failed == Some(SharedVoxelDataTransactionReservation::PreviewSnapshotStorage) {
            let r = Err(
                PreparedSharedVoxelDataTransactionPrepareError {
                    error: SharedVoxelDataMutationError::PreparedTransactionCapacityReservationFailed {
                        reservation: SharedVoxelDataTransactionReservation::PreviewSnapshotStorage,
                    },
                    operations,
                },
            );
            assert(preview_outcome(
                self@,
                given,
                snapshots@,
                snapshots@,
                expected_settings_revision,
                failed,
                r,
            ));
            return r;
        }
        let copy = copy_snapshots(snapshots);
        let sorted = sorting::sort_by_key(copy);
        let ghost all = sorted@;
        let r = match self.prepare_transaction_reserved(
            operations,
            expected_settings_revision,
            lists,
            failed,
        ) {
            Ok(prepared) => self.observe(prepared, &sorted, failed),
            Err(e) => {
                let (original_error, operations) = e.into_parts();
                let error = match self.first_transaction_snapshot_conflict(&sorted) {
                    Some(conflict) => conflict,
                    None => original_error,
                };
                Err(PreparedSharedVoxelDataTransactionPrepareError { error, operations })
            },
        };
        assert(preview_outcome(
            self@,
            given,
            snapshots@,
            all,
            expected_settings_revision,
            failed,
            r,
        ));
        r
    }

    /// Joins the keys that were looked at to a transaction.
    fn observe(
        &self,
        prepared: PreparedSharedVoxelDataTransaction,
        snapshots: &Vec<SharedVoxelDataTransactionBlockSnapshot>,
        failed: Option<SharedVoxelDataTransactionReservation>,
    ) -> (r: Result<
        PreparedSharedVoxelDataTransaction,
        PreparedSharedVoxelDataTransactionPrepareError,
    >)
        requires
            self.wf(),
            prepared.wf(),
            sorting::in_order(prepared.operations()),
            sorting::in_order(snapshots@),
            prepared@.lod_count == self@.data.lods.len(),
            prepared_transaction::prepare_refusal(
                self@.data,
                prepared_transaction::operations_of(prepared.operations()),
                failed,
            ) is None,
        ensures
            match r {
                Ok(t) => {
                    let ops = prepared_transaction::operations_of(prepared.operations());
                    &&& t.wf()
                    &&& t.operations() == prepared.operations()
                    &&& preview_refusal(self@.data, ops, snapshots@, failed) is None
                    &&& t@ == (TransactionModel {
                        observations: observed_keys(self@.data, ops, snapshots@),
                        ..prepared@
                    })
                },
                Err(e) => {
                    &&& prepared_transaction::operations_wf(e.operations@)
                    &&& e.operations@ == prepared.operations()
                    &&& preview_refusal(
                        self@.data,
                        prepared_transaction::operations_of(e.operations@),
                        snapshots@,
                        failed,
                    ) == Some(e.error)
                },
            },
    {
        let ghost d = self@.data;
        let ghost ops = prepared_transaction::operations_of(prepared.operations());
        let ghost all = snapshots@;
        let ghost error = snapshot_errors(d, ops);
        let ghost other = |x: SharedVoxelDataTransactionBlockSnapshot|
            !operated(ops, x@.location);
        let ghost observe = |x: SharedVoxelDataTransactionBlockSnapshot|
            transaction::observation_of(d, x@.location);
        proof {
            self.lemma_wf();
            prepared.lemma_wf();
            prepared.lemma_operations();
            assert forall|i: int, j: int| 0 <= i < j < prepared.operations().len() implies (
            #[trigger] prepared.operations()[i])@.place() != (
            #[trigger] prepared.operations()[j])@.place() by {
                assert(prepared@.operations[i] == prepared.operations()[i]@);
                assert(prepared@.operations[j] == prepared.operations()[j]@);
                assert(prepared@.operations[i].place() != prepared@.operations[j].place());
            }
        }
        let flags = match match_snapshots(prepared.operation_list(), snapshots) {
            Some(flags) => flags,
            None => {
                return Err(
                    PreparedSharedVoxelDataTransactionPrepareError {
                        error: SharedVoxelDataMutationError::PreparedTransactionPreviewSetMismatch,
                        operations: prepared.into_uncommitted_operations(),
                    },
                );
            },
        };
        if failed == Some(SharedVoxelDataTransactionReservation::ObservationStorage) {
            return Err(
                PreparedSharedVoxelDataTransactionPrepareError {
                    error: SharedVoxelDataMutationError::PreparedTransactionCapacityReservationFailed {
                        reservation: SharedVoxelDataTransactionReservation::ObservationStorage,
                    },
                    operations: prepared.into_uncommitted_operations(),
                },
            );
        }
        let mut observations: Vec<PreparedSharedVoxelDataExpectation> = Vec::new();
        let mut i: usize = 0;
        proof {
            assert(collections::first_some(all.take(0), error) is None);
            collections::lemma_filter_none(all, other);
            assert(observations@ =~= all.take(0).filter(other).map_values(observe));
        }
        while i < snapshots.len()
            invariant
                i <= all.len(),
                all == snapshots@,
                self.wf(),
                d == self@.data,
                prepared.wf(),
                ops == prepared_transaction::operations_of(prepared.operations()),
                ops == prepared@.operations,
                prepared@.wf(),
                prepared@.lod_count == d.lods.len(),
                prepared_transaction::prepare_refusal(d, ops, failed) is None,
                !set_mismatch(ops, all),
                failed != Some(SharedVoxelDataTransactionReservation::ObservationStorage),
                error == snapshot_errors(d, ops),
                other == (|x: SharedVoxelDataTransactionBlockSnapshot|
                    !operated(ops, x@.location)),
                observe == (|x: SharedVoxelDataTransactionBlockSnapshot|
                    transaction::observation_of(d, x@.location)),
                flags@.len() == all.len(),
                forall|k: int|
                    0 <= k < flags@.len() ==> #[trigger] flags@[k] == operated(
                        ops,
                        all[k]@.location,
                    ),
                collections::first_some(all.take(i as int), error) is None,
                observations@ == all.take(i as int).filter(other).map_values(observe),
                forall|k: int|
                    0 <= k < observations@.len() ==> ((
                    #[trigger] observations@[k]).location.lod_index as nat) < d.lods.len(),
            decreases all.len() - i,
        {
            let snapshot = &snapshots[i];
            let ghost listed = observations@;
            proof {
                collections::lemma_first_some_take(all, error, i as int);
                collections::lemma_filter_take(all, other, i as int);
                assert(flags@[i as int] == operated(ops, all[i as int]@.location));
            }
            if !flags[i] {
                match self.prepare_transaction_observation(snapshot.location) {
                    Ok(observation) => {
                        observations.push(observation);
                        proof {
                            assert(all.take(i + 1).filter(other).map_values(observe)
                                =~= all.take(i as int).filter(other).map_values(observe).push(
                                observe(*snapshot),
                            ));
                        }
                    },
                    Err(e) => {
                        proof {
                            assert(error(*snapshot) == Some(e));
                            collections::lemma_first_some_prefix(all, error, i + 1);
                        }
                        return Err(
                            PreparedSharedVoxelDataTransactionPrepareError {
                                error: e,
                                operations: prepared.into_uncommitted_operations(),
                            },
                        );
                    },
                }
            } else {
                proof {
                    let k = choose|k: int|
                        0 <= k < ops.len() && (#[trigger] ops[k]).place() == snapshot@.location;
                    assert(prepared_transaction::expects(
                        prepared@.operations[k],
                        prepared@.expectations[k],
                        prepared@.lod_count,
                    ));
                }
            }
            let conflict = self.check_snapshot(snapshot);
            match conflict {
                Some(e) => {
                    proof {
                        assert(error(*snapshot) == Some(e));
                        collections::lemma_first_some_prefix(all, error, i + 1);
                    }
                    return Err(
                        PreparedSharedVoxelDataTransactionPrepareError {
                            error: e,
                            operations: prepared.into_uncommitted_operations(),
                        },
                    );
                },
                None => {},
            }
            i = i + 1;
        }
        assert(all.take(i as int) =~= all);
        Ok(prepared.with_observations(observations))
    }

    /// `prepare_transaction_from_snapshots_reserved`, with room reserved here.
    pub(crate) fn prepare_transaction_from_snapshots_at_settings_revision(
        &self,
        operations: Vec<SharedVoxelDataTransactionOperation>,
        snapshots: &Vec<SharedVoxelDataTransactionBlockSnapshot>,
        expected_settings_revision: u64,
    ) -> (r: Result<
        PreparedSharedVoxelDataTransaction,
        PreparedSharedVoxelDataTransactionPrepareError,
    >)
        requires
            self.wf(),
            prepared_transaction::operations_wf(operations@),
        ensures
            exists|
                sorted: Seq<SharedVoxelDataTransactionBlockSnapshot>,
                failed: Option<SharedVoxelDataTransactionReservation>,
            | #[trigger]
                preview_outcome(
                    self@,
                    operations@,
                    snapshots@,
                    sorted,
                    expected_settings_revision,
                    failed,
                    r,
                ) && (failed matches Some(x) ==> prepared_transaction::needed_by_prepare(
                    prepared_transaction::operations_of(operations@),
                    x,
                )),
    {
        let ghost ops = prepared_transaction::operations_of(operations@);
        let mut lists = TransactionLists::new();
        let failed = lists.try_reserve(
            operations.len(),
            prepared_transaction::count_removals(&operations),
        );
        proof {
            prepared_transaction::lemma_counted(ops, |op: OperationModel| op.retires());
        }
        self.prepare_transaction_from_snapshots_reserved(
            operations,
            snapshots,
            expected_settings_revision,
            lists,
            failed,
        )
    }
}

/// The same snapshots once more.
fn copy_snapshots(snapshots: &Vec<SharedVoxelDataTransactionBlockSnapshot>) -> (copy: Vec<
    SharedVoxelDataTransactionBlockSnapshot,
>)
    ensures
        copy@ == snapshots@,
{
    let mut copy: Vec<SharedVoxelDataTransactionBlockSnapshot> = Vec::new();
    let mut i: usize = 0;
    while i < snapshots.len()
        invariant
            i <= snapshots@.len(),
            copy@ == snapshots@.take(i as int),
        decreases snapshots@.len() - i,
    {
        copy.push(snapshots[i].clone());
        assert(copy@ =~= snapshots@.take(i + 1));
        i = i + 1;
    }
    assert(snapshots@.take(i as int) =~= snapshots@);
    copy
}

/// Every snapshot is of the preview.
pub open spec fn snapshots_belong(
    snapshots: Seq<SharedVoxelDataTransactionBlockSnapshot>,
    lineage: PreviewLineage,
) -> bool {
    forall|k: int| 0 <= k < snapshots.len() ==> (#[trigger] snapshots[k])@.lineage == lineage
}

/// Why a preview cannot be used: the settings have changed, or it or one of the
/// snapshots is not of this data and preview.
pub open spec fn preview_denial(
    s: SharedModel,
    lineage: PreviewLineage,
    snapshots: Seq<SharedVoxelDataTransactionBlockSnapshot>,
) -> Option<SharedVoxelDataMutationError> {
    if s.settings_revision != lineage.settings_revision {
        Some(
            SharedVoxelDataMutationError::ConcurrentSettingsMutation {
                expected_revision: lineage.settings_revision,
                actual_revision: s.settings_revision,
            },
        )
    } else if lineage.data != s.lineage || !snapshots_belong(snapshots, lineage) {
        Some(SharedVoxelDataMutationError::PreparedTransactionPreviewSetMismatch)
    } else {
        None
    }
}

impl SharedVoxelDataTransactionPreview {
    /// Prepares operations, if the settings and all keys that were looked at
    /// are still as they were.
    pub fn prepare_transaction(
        self,
        data: &SharedVoxelData,
        operations: Vec<SharedVoxelDataTransactionOperation>,
        snapshots: &Vec<SharedVoxelDataTransactionBlockSnapshot>,
    ) -> (r: Result<
        PreparedSharedVoxelDataTransaction,
        PreparedSharedVoxelDataTransactionPrepareError,
    >)
        requires
            data.wf(),
            prepared_transaction::operations_wf(operations@),
        ensures
            match preview_denial(data@, self@, snapshots@) {
                Some(e) => r matches Err(p) && p.error == e && p.operations@ == operations@,
                None => exists|
                    sorted: Seq<SharedVoxelDataTransactionBlockSnapshot>,
                    failed: Option<SharedVoxelDataTransactionReservation>,
                | #[trigger]
                    preview_outcome(
                        data@,
                        operations@,
                        snapshots@,
                        sorted,
                        data@.settings_revision,
                        failed,
                        r,
                    ) && (failed matches Some(x) ==> prepared_transaction::needed_by_prepare(
                        prepared_transaction::operations_of(operations@),
                        x,
                    )),
            },
    {
        let actual_revision: u64 = data.settings_revision();
        let expected_revision: u64 = self.lineage.settings_revision;
        if actual_revision != expected_revision {
            return Err(
                PreparedSharedVoxelDataTransactionPrepareError {
                    error: SharedVoxelDataMutationError::ConcurrentSettingsMutation {
                        expected_revision,
                        actual_revision,
                    },
                    operations,
                },
            );
        }
        let mut belongs = self.lineage.data.same_as(data.lineage());
        let mut i: usize = 0;
        while i < snapshots.len()
            invariant
                i <= snapshots@.len(),
                belongs == (self.lineage.data == data@.lineage && forall|k: int|
                    0 <= k < i ==> (#[trigger] snapshots@[k])@.lineage == self.lineage),
            decreases snapshots@.len() - i,
        {
            if !snapshots[i].lineage.same_as(&self.lineage) {
                belongs = false;
            }
            assert(snapshots@[i as int]@.lineage == snapshots@[i as int].lineage);
            i = i + 1;
        }
        if !belongs {
            return Err(
                PreparedSharedVoxelDataTransactionPrepareError {
                    error: SharedVoxelDataMutationError::PreparedTransactionPreviewSetMismatch,
                    operations,
                },
            );
        }
        data.prepare_transaction_from_snapshots_at_settings_revision(
            operations,
            snapshots,
            expected_revision,
        )
    }
}

} // verus!
