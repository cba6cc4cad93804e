//! Preparing the edit of one voxel, with everything that follows from it at the
//! coarser levels, as one transaction.

use crate::boxes;
use crate::buffer_model::BufferModel;
use crate::channel::MAX_CHANNELS;
use crate::collections;
use crate::math::Vector3i;
use crate::mutation_error::{
    SharedVoxelDataMutationError, SharedVoxelDataTransactionReservation,
};
use crate::prepared_transaction;
use crate::prepared_transaction::{
    PreparedSharedVoxelDataTransaction, TransactionLists, TransactionModel,
};
use crate::resident_copies;
use crate::shared_data::{SharedModel, SharedVoxelData};
use crate::shared_edits;
use crate::sorting;
use crate::sorting::Keyed;
use crate::transaction;
use crate::transaction::{OperationModel, SharedVoxelDataTransactionOperation};
use crate::transaction_preview;
use crate::transaction_preview::{
    PreviewLineage, SharedVoxelDataTransactionBlockSnapshot, SharedVoxelDataTransactionPreview,
    SnapshotModel,
};
use crate::voxel_data::{BlockLocation, DataModel};
use crate::voxel_data_block::{BlockModel, VoxelDataBlock};
use crate::voxel_data_lods;
use crate::voxel_data_map;
use crate::voxel_data_map::VoxelDataMap;
use vstd::prelude::*;

verus! {

/// The block of level `l` that voxel `pos` of the finest level lies in.
pub open spec fn edited_position(pos: Vector3i, l: int) -> Vector3i
    decreases l,
{
    if l <= 0 {
        voxel_data_map::block_of(pos)
    } else {
        voxel_data_lods::parent_of(edited_position(pos, l - 1))
    }
}

/// Where the block of level `l` that voxel `pos` lies in is found.
pub open spec fn edited_location(pos: Vector3i, l: int) -> BlockLocation {
    BlockLocation { position: edited_position(pos, l), lod_index: l as u8 }
}

/// Where preparing ends at level `l`: with an error, if the voxels of the block
/// have no positions; with nothing, if it has no voxels and may not be made.
pub open spec fn edit_stop(s: SharedModel, pos: Vector3i, l: int) -> Option<
    Option<SharedVoxelDataMutationError>,
> {
    let q = edited_position(pos, l);
    if !boxes::block_bounds_exist(boxes::single(q), l as nat) {
        Some(Some(SharedVoxelDataMutationError::SpatialBoundsOverflow { lod_index: l as usize }))
    } else if !s.data.lods[l].has_voxels(q) && !s.may_materialize() {
        Some(None)
    } else {
        None
    }
}

/// Where preparing ends at the first of `n` levels that stops it.
pub open spec fn first_stop(s: SharedModel, pos: Vector3i, n: int) -> Option<
    Option<SharedVoxelDataMutationError>,
>
    decreases n,
{
    if n <= 0 {
        None
    } else {
        match first_stop(s, pos, n - 1) {
            Some(stop) => Some(stop),
            None => edit_stop(s, pos, n - 1),
        }
    }
}

/// The error at the first of `n` levels at which the revision of the key cannot
/// advance.
pub open spec fn first_overflow(d: DataModel, pos: Vector3i, n: int) -> Option<
    SharedVoxelDataMutationError,
>
    decreases n,
{
    if n <= 0 {
        None
    } else {
        match first_overflow(d, pos, n - 1) {
            Some(e) => Some(e),
            None => if d.lods[n - 1].revision(edited_position(pos, n - 1)) == u64::MAX {
                Some(
                    SharedVoxelDataMutationError::KeyRevisionOverflow {
                        position: edited_position(pos, n - 1),
                        lod_index: (n - 1) as usize,
                    },
                )
            } else {
                None
            },
        }
    }
}

/// What can be said of an edit before its transaction is prepared.
pub enum EditAnswer {
    Refused(SharedVoxelDataMutationError),
    /// The voxel is out of bounds, or may not be touched.
    Nothing,
    Possible,
}

/// What can be said of an edit, where `drafts` and `lists` say for which lists
/// there is room.
pub open spec fn edit_answer(
    s: SharedModel,
    pos: Vector3i,
    channel_index: usize,
    drafts: bool,
    lists: bool,
) -> EditAnswer {
    let n = s.data.lods.len() as int;
    if channel_index >= MAX_CHANNELS {
        EditAnswer::Refused(SharedVoxelDataMutationError::InvalidChannel { channel_index })
    } else if !s.data.bounds.end().fits() {
        EditAnswer::Refused(SharedVoxelDataMutationError::SpatialBoundsOverflow { lod_index: 0 })
    } else if !s.data.bounds.has(pos@) {
        EditAnswer::Nothing
    } else if !drafts {
        EditAnswer::Refused(SharedVoxelDataMutationError::CapacityReservationFailed)
    } else {
        match first_stop(s, pos, n) {
            Some(Some(e)) => EditAnswer::Refused(e),
            Some(None) => EditAnswer::Nothing,
            None => match first_overflow(s.data, pos, n) {
                Some(e) => EditAnswer::Refused(e),
                None => if lists {
                    EditAnswer::Possible
                } else {
                    EditAnswer::Refused(SharedVoxelDataMutationError::CapacityReservationFailed)
                },
            },
        }
    }
}

/// The block of level `l` with voxels: its own, or `made`.
pub open spec fn edit_base(d: DataModel, pos: Vector3i, l: int, made: BufferModel) -> BlockModel {
    let m = d.lods[l];
    let q = edited_position(pos, l);
    if m.has_voxels(q) {
        m.blocks[q]
    } else {
        m.with_buffer(q, made).blocks[q]
    }
}

/// The block of level `l` after the edit, where `made` holds the new voxels of
/// each level: at the finest level with the voxel set, at the others with the
/// level below sampled into it. No block waits for an update any more.
pub open spec fn edit_draft(
    d: DataModel,
    pos: Vector3i,
    c: int,
    value: u64,
    made: Seq<BufferModel>,
    l: int,
) -> BlockModel
    decreases l,
{
    if l <= 0 {
        let b = edit_base(d, pos, 0, made[0]);
        BlockModel {
            voxels: Some((b.voxels->0).voxel_set(c, voxel_data_map::local_of(pos), value)),
            modified: true,
            edited: true,
            needs_lodding: false,
            ..b
        }
    } else {
        BlockModel {
            modified: true,
            needs_lodding: false,
            ..voxel_data_lods::sampled(
                edit_base(d, pos, l, made[l]),
                edit_draft(d, pos, c, value, made, l - 1),
                edited_position(pos, l - 1),
            )
        }
    }
}

/// The operation that brings the block of level `l` in.
pub open spec fn edit_operation(d: DataModel, pos: Vector3i, block: BlockModel, l: int) ->
    OperationModel {
    let location = edited_location(pos, l);
    if d.lods[l].has(location.position) {
        OperationModel::Replace { location, block }
    } else {
        OperationModel::Insert { location, block, final_viewers: 0 }
    }
}

/// The operations of an edit, one for each level.
pub open spec fn edit_operations(
    d: DataModel,
    pos: Vector3i,
    c: int,
    value: u64,
    made: Seq<BufferModel>,
) -> Seq<OperationModel> {
    Seq::new(
        d.lods.len(),
        |l: int| edit_operation(d, pos, edit_draft(d, pos, c, value, made, l), l),
    )
}

/// What the keys of an edit look like in a preview.
pub open spec fn edit_snapshots(d: DataModel, pos: Vector3i, lineage: PreviewLineage) -> Seq<
    SnapshotModel,
> {
    Seq::new(
        d.lods.len(),
        |l: int| transaction_preview::snapshot_of(d, edited_location(pos, l), lineage),
    )
}

/// The first `n` levels at which an edit puts in a new block.
pub open spec fn edit_insertions(d: DataModel, pos: Vector3i, n: int) -> Seq<BlockLocation>
    decreases n,
{
    if n <= 0 {
        Seq::empty()
    } else if d.lods[n - 1].has(edited_position(pos, n - 1)) {
        edit_insertions(d, pos, n - 1)
    } else {
        edit_insertions(d, pos, n - 1).push(edited_location(pos, n - 1))
    }
}

/// `made` holds possible new voxels for the first `n` levels.
pub open spec fn edit_made(d: DataModel, pos: Vector3i, made: Seq<BufferModel>, n: int) -> bool {
    forall|l: int|
        0 <= l < n ==> made_for(d, pos, l, #[trigger] made[l])
}

/// `b` holds possible new voxels for level `l`, where they are needed.
pub open spec fn made_for(d: DataModel, pos: Vector3i, l: int, b: BufferModel) -> bool {
    !d.lods[l].has_voxels(edited_position(pos, l)) ==> voxel_data_lods::generated_for(
        d.generator,
        d.format,
        edited_position(pos, l),
        l as nat,
        b,
    )
}

/// Why the transaction of an edit cannot be prepared.
pub open spec fn edit_failure(
    d: DataModel,
    ops: Seq<OperationModel>,
    snapshots: Seq<SharedVoxelDataTransactionBlockSnapshot>,
    failed: Option<SharedVoxelDataTransactionReservation>,
) -> Option<SharedVoxelDataMutationError> {
    if failed == Some(SharedVoxelDataTransactionReservation::PreviewSnapshotStorage) {
        Some(
            prepared_transaction::no_room(
                SharedVoxelDataTransactionReservation::PreviewSnapshotStorage,
            ),
        )
    } else {
        transaction_preview::preview_refusal(d, ops, snapshots, failed)
    }
}

/// An edit of one voxel and the blocks that follow from it, as a transaction
/// that can be committed.
#[derive(Debug)]
pub struct PreparedSharedVoxelDataEdit {
    transaction: PreparedSharedVoxelDataTransaction,
    edited_block: BlockLocation,
    block_revision: u64,
    inserted_locations: Vec<BlockLocation>,
}

/// What a prepared edit holds.
#[verifier::ext_equal]
pub struct EditModel {
    pub transaction: TransactionModel,
    pub edited_block: BlockLocation,
    /// The revision that the edited block gets.
    pub block_revision: u64,
    pub inserted_locations: Seq<BlockLocation>,
}

impl View for PreparedSharedVoxelDataEdit {
    type V = EditModel;

    closed spec fn view(&self) -> EditModel {
        EditModel {
            transaction: self.transaction@,
            edited_block: self.edited_block,
            block_revision: self.block_revision,
            inserted_locations: self.inserted_locations@,
        }
    }
}

impl PreparedSharedVoxelDataEdit {
    pub closed spec fn wf(&self) -> bool {
        self.transaction.wf()
    }

    pub fn edited_block(&self) -> (l: BlockLocation)
        ensures
            l == self@.edited_block,
    {
        self.edited_block
    }

    pub fn block_revision(&self) -> (n: u64)
        ensures
            n == self@.block_revision,
    {
        self.block_revision
    }

    pub fn inserted_locations(&self) -> (v: &Vec<BlockLocation>)
        ensures
            v@ == self@.inserted_locations,
    {
        &self.inserted_locations
    }

    /// Sets the number of viewers that an inserted block gets. Returns whether
    /// the edit inserts one there.
    pub fn set_insert_final_viewers(&mut self, location: BlockLocation, final_viewers: u32) -> (
        found: bool)
        requires
            old(self).wf(),
        ensures
            final(self).wf(),
            final(self)@ == (EditModel {
                transaction: TransactionModel {
                    operations: old(self)@.transaction.operations.map_values(
                        |op: OperationModel|
                            prepared_transaction::viewers_set(op, location, final_viewers),
                    ),
                    ..old(self)@.transaction
                },
                ..old(self)@
            }),
            found == exists|k: int|
                0 <= k < old(self)@.transaction.operations.len()
                    && #[trigger] old(self)@.transaction.operations[k] is Insert
                    && old(self)@.transaction.operations[k].place() == location,
    {
        let ghost before = self.transaction@;
        let found = self.transaction.set_insert_final_viewers(location, final_viewers);
        proof {
            assert(self.transaction@.operations =~= before.operations.map_values(
                |op: OperationModel|
                    prepared_transaction::viewers_set(op, location, final_viewers),
            ));
        }
        found
    }

    /// The transaction, to be changed.
    pub fn transaction_mut(&mut self) -> (t: &mut PreparedSharedVoxelDataTransaction)
        requires
            old(self).wf(),
        ensures
            t.wf(),
            t@ == old(self)@.transaction,
            final(t).wf() ==> final(self).wf(),
            final(self)@ == (EditModel { transaction: final(t)@, ..old(self)@ }),
    {
        &mut self.transaction
    }

    /// The transaction alone.
    pub fn into_transaction(self) -> (t: PreparedSharedVoxelDataTransaction)
        requires
            self.wf(),
        ensures
            t.wf(),
            t@ == self@.transaction,
    {
        self.transaction
    }
}

/// The outcome of preparing an edit. New voxels, where they are needed, are
/// generated.
pub open spec fn prepared_edit_outcome(
    s: SharedModel,
    value: u64,
    pos: Vector3i,
    channel_index: usize,
    drafts: bool,
    lists: bool,
    made: Seq<BufferModel>,
    snapshots: Seq<SharedVoxelDataTransactionBlockSnapshot>,
    failed: Option<SharedVoxelDataTransactionReservation>,
    r: Result<Option<PreparedSharedVoxelDataEdit>, SharedVoxelDataMutationError>,
) -> bool {
    let d = s.data;
    match edit_answer(s, pos, channel_index, drafts, lists) {
        EditAnswer::Refused(e) => r == Err::<Option<PreparedSharedVoxelDataEdit>, _>(e),
        EditAnswer::Nothing => r == Ok::<
            Option<PreparedSharedVoxelDataEdit>,
            SharedVoxelDataMutationError,
        >(None),
        EditAnswer::Possible => {
            let ops = edit_operations(d, pos, channel_index as int, value, made);
            &&& edit_made(d, pos, made, d.lods.len() as int)
            &&& resident_copies::snapshots_of(snapshots) == edit_snapshots(
                d,
                pos,
                edit_lineage(s),
            )
            &&& match edit_failure(d, ops, snapshots, failed) {
                Some(e) => r == Err::<Option<PreparedSharedVoxelDataEdit>, _>(e),
                None => r matches Ok(Some(edit)) && edit.wf() && edit@ == (EditModel {
                    transaction: prepared_transaction::freshly_prepared(
                        s,
                        ops,
                        s.settings_revision,
                    ),
                    edited_block: edited_location(pos, 0),
                    block_revision: (d.lods[0].revision(edited_position(pos, 0)) + 1) as u64,
                    inserted_locations: edit_insertions(d, pos, d.lods.len() as int),
                }),
            }
        },
    }
}

/// The preview that an edit goes through.
pub open spec fn edit_lineage(s: SharedModel) -> PreviewLineage {
    PreviewLineage { data: s.lineage, id: 0, settings_revision: s.settings_revision }
}

/// A block that an edit puts in, and what its key looked like.
struct EditDraft {
    snapshot: SharedVoxelDataTransactionBlockSnapshot,
    block: VoxelDataBlock,
}

/// Levels further up do not change the drafts below.
proof fn lemma_draft_prefix(
    d: DataModel,
    pos: Vector3i,
    c: int,
    value: u64,
    a: Seq<BufferModel>,
    b: Seq<BufferModel>,
    l: int,
)
    requires
        0 <= l < a.len() <= b.len(),
        a == b.take(a.len() as int),
    ensures
        edit_draft(d, pos, c, value, a, l) == edit_draft(d, pos, c, value, b, l),
    decreases l,
{
    assert forall|k: int| 0 <= k < a.len() implies a[k] == b[k] by {
        assert(b.take(a.len() as int)[k] == b[k]);
    }
    if l > 0 {
        lemma_draft_prefix(d, pos, c, value, a, b, l - 1);
    }
}

/// Nothing stops at the levels below.
pub proof fn lemma_no_stop(s: SharedModel, pos: Vector3i, l: int, n: int)
    requires
        0 <= l < n,
        first_stop(s, pos, n) is None,
    ensures
        edit_stop(s, pos, l) is None,
    decreases n,
{
    if l < n - 1 {
        lemma_no_stop(s, pos, l, n - 1);
    }
}

/// The first stop stays the first.
proof fn lemma_stop_stays(s: SharedModel, pos: Vector3i, l: int, n: int)
    requires
        l <= n,
        first_stop(s, pos, l) is Some,
    ensures
        first_stop(s, pos, n) == first_stop(s, pos, l),
    decreases n,
{
    if l < n {
        lemma_stop_stays(s, pos, l, n - 1);
    }
}

/// The first overflow stays the first.
proof fn lemma_overflow_stays(d: DataModel, pos: Vector3i, l: int, n: int)
    requires
        l <= n,
        first_overflow(d, pos, l) is Some,
    ensures
        first_overflow(d, pos, n) == first_overflow(d, pos, l),
    decreases n,
{
    if l < n {
        lemma_overflow_stays(d, pos, l, n - 1);
    }
}

/// No level below overflows.
pub proof fn lemma_no_overflow(d: DataModel, pos: Vector3i, l: int, n: int)
    requires
        0 <= l < n,
        first_overflow(d, pos, n) is None,
    ensures
        d.lods[l].revision(edited_position(pos, l)) < u64::MAX,
    decreases n,
{
    if l < n - 1 {
        lemma_no_overflow(d, pos, l, n - 1);
    }
}

impl SharedVoxelData {
    /// The block of level `l` with voxels, generated where it has none.
    fn edit_base_block(
        &self,
        resident: Option<VoxelDataBlock>,
        pos: Vector3i,
        position: Vector3i,
        l: usize,
    ) -> (block: VoxelDataBlock)
        requires
            self.wf(),
            l < self@.data.lods.len(),
            position == edited_position(pos, l as int),
            boxes::block_bounds_exist(boxes::single(position), l as nat),
            resident is Some <==> self@.data.lods[l as int].has(position),
            resident matches Some(b) ==> b.wf() && b@
                == self@.data.lods[l as int].blocks[position],
        ensures
            block.wf(),
            voxel_data_map::block_fits(block@),
            block@.voxels is Some,
            exists|made: BufferModel| #[trigger]
                made_for(self@.data, pos, l as int, made) && block@ == edit_base(
                    self@.data,
                    pos,
                    l as int,
                    made,
                ),
    {
        let ghost d = self@.data;
        let ghost m = d.lods[l as int];
        proof {
            self.lemma_wf();
            assert(m.wf());
        }
        let needs_voxels = match &resident {
            Some(block) => !block.has_voxels(),
            None => true,
        };
        let block = match resident {
            Some(block) => block,
            None => VoxelDataBlock::empty(l as u8),
        };
        if !needs_voxels {
            proof {
                assert(m.blocks.contains_key(position));
                let any = arbitrary::<BufferModel>();
                assert(made_for(d, pos, l as int, any));
            }
            return block;
        }
        let settings = self.settings_snapshot();
        let voxels = voxel_data_lods::generate_block_voxels(
            &settings.generator,
            settings.format,
            position,
            l,
        );
        let ghost made = voxels@;
        let mut block = block;
        block.set_voxels(voxels);
        proof {
            assert(made_for(d, pos, l as int, made));
            assert(block@ == edit_base(d, pos, l as int, made));
        }
        block
    }
}

/// What the loop over the levels has drafted so far.
spec fn drafted(
    s: SharedModel,
    value: u64,
    pos: Vector3i,
    c: int,
    made: Seq<BufferModel>,
    drafts: Seq<EditDraft>,
) -> bool {
    let d = s.data;
    &&& made.len() == drafts.len()
    &&& edit_made(d, pos, made, made.len() as int)
    &&& forall|k: int|
        0 <= k < drafts.len() ==> (#[trigger] drafts[k]).snapshot@
            == transaction_preview::snapshot_of(d, edited_location(pos, k), edit_lineage(s))
            && drafts[k].block.wf() && voxel_data_map::block_fits(drafts[k].block@)
            && drafts[k].block@.voxels is Some && drafts[k].block@ == edit_draft(
            d,
            pos,
            c,
            value,
            made,
            k,
        )
}

/// The drafts are those of an edit with some new voxels.
spec fn drafted_somehow(
    s: SharedModel,
    value: u64,
    pos: Vector3i,
    c: int,
    drafts: Seq<EditDraft>,
) -> bool {
    exists|made: Seq<BufferModel>| #[trigger] drafted(s, value, pos, c, made, drafts)
}

/// One more draft.
proof fn lemma_drafted_push(
    s: SharedModel,
    value: u64,
    pos: Vector3i,
    c: int,
    made: Seq<BufferModel>,
    drafts: Seq<EditDraft>,
    b: BufferModel,
    draft: EditDraft,
)
    requires
        drafted(s, value, pos, c, made, drafts),
        made_for(s.data, pos, drafts.len() as int, b),
        draft.snapshot@ == transaction_preview::snapshot_of(
            s.data,
            edited_location(pos, drafts.len() as int),
            edit_lineage(s),
        ),
        draft.block.wf(),
        voxel_data_map::block_fits(draft.block@),
        draft.block@.voxels is Some,
        draft.block@ == edit_draft(
            s.data,
            pos,
            c,
            value,
            made.push(b),
            drafts.len() as int,
        ),
    ensures
        drafted(s, value, pos, c, made.push(b), drafts.push(draft)),
{
    let d = s.data;
    let more = made.push(b);
    assert(made =~= more.take(made.len() as int));
    assert forall|k: int| 0 <= k < more.len() implies made_for(d, pos, k, #[trigger] more[k]) by {
        if k < made.len() {
            assert(more[k] == made[k]);
        }
    }
    assert forall|k: int| 0 <= k < drafts.len() implies edit_draft(d, pos, c, value, more, k)
        == edit_draft(d, pos, c, value, made, k) by {
        lemma_draft_prefix(d, pos, c, value, made, more, k);
    }
}

impl SharedVoxelData {
    /// The blocks of an edit, level by level, or where preparing it ends.
    #[verifier::loop_isolation(false)]
    fn draft_edit(
        &self,
        preview: &SharedVoxelDataTransactionPreview,
        value: u64,
        pos: Vector3i,
        channel_index: usize,
        room: Vec<EditDraft>,
    ) -> (r: Result<Vec<EditDraft>, Option<SharedVoxelDataMutationError>>)
        requires
            self.wf(),
            preview@ == edit_lineage(self@),
            channel_index < MAX_CHANNELS,
            room@.len() == 0,
        ensures
            match r {
                Ok(drafts) => {
                    &&& first_stop(self@, pos, self@.data.lods.len() as int) is None
                    &&& drafts@.len() == self@.data.lods.len()
                    &&& drafted_somehow(self@, value, pos, channel_index as int, drafts@)
                },
                Err(stop) => first_stop(self@, pos, self@.data.lods.len() as int) == Some(stop),
            },
    {
        let ghost s = self@;
        let ghost d = s.data;
        let ghost c = channel_index as int;
        let ghost mut made: Seq<BufferModel> = Seq::empty();
        let mut drafts = room;
        proof {
            self.lemma_wf();
            voxel_data_map::lemma_local(pos);
        }
        let settings = self.settings_snapshot();
        let may_materialize = !settings.streaming_enabled && settings.full_load_completed;
        let n: usize = self.lod_count();
        let mut position = VoxelDataMap::voxel_to_block(pos);
        let mut l: usize = 0;
        while l < n
            invariant
                l <= n,
                n == d.lods.len(),
                drafts@.len() == l,
                first_stop(s, pos, l as int) is None,
                drafted(s, value, pos, c, made, drafts@),
                l == 0 ==> position == edited_position(pos, 0),
                l > 0 ==> position == edited_position(pos, l - 1),
            decreases n - l,
        {
            let below = position;
            if l > 0 {
                position = below.floor_div(2);
            }
            proof {
                assert(position == edited_position(pos, l as int));
                if first_stop(s, pos, l + 1) is Some {
                    lemma_stop_stays(s, pos, l + 1, n as int);
                }
            }
            if boxes::checked_lod_block_bounds(
                shared_edits::single_block(position),
                l,
            ).is_none() {
                return Err(Some(SharedVoxelDataMutationError::SpatialBoundsOverflow {
                    lod_index: l,
                }));
            }
            let location = BlockLocation { position, lod_index: l as u8 };
            let (snapshot, resident) = match preview.block_draft(self, location) {
                Some(draft) => draft,
                None => {
                    assert(false);
                    return Err(None);
                },
            };
            let needs_voxels = match &resident {
                Some(block) => !block.has_voxels(),
                None => true,
            };
            if needs_voxels && !may_materialize {
                return Err(None);
            }
            let mut block = self.edit_base_block(resident, pos, position, l);
            let ghost b = choose|b: BufferModel| #[trigger]
                made_for(d, pos, l as int, b) && block@ == edit_base(d, pos, l as int, b);
            let ghost base = block@;
            let ghost more = made.push(b);
            assert(more[l as int] == b);
            if l == 0 {
                let local = pos.minus(position.times(VoxelDataMap::BLOCK_SIZE as i32));
                assert(local@ == voxel_data_map::local_of(pos));
                block.voxels_mut().set_voxel(value, local.x, local.y, local.z, channel_index);
                block.set_modified(true);
                block.set_edited(true);
                block.set_needs_lodding(false);
            } else {
                let child = &drafts[l - 1].block;
                proof {
                    assert(made =~= more.take(made.len() as int));
                    lemma_draft_prefix(d, pos, c, value, made, more, l - 1);
                    assert(child@ == edit_draft(d, pos, c, value, made, l - 1));
                }
                voxel_data_lods::sample_into_parent(&mut block, child, below);
                block.set_modified(true);
                block.set_needs_lodding(false);
            }
            let draft = EditDraft { snapshot, block };
            proof {
                lemma_drafted_push(s, value, pos, c, made, drafts@, b, draft);
                made = more;
            }
            drafts.push(draft);
            l = l + 1;
        }
        assert(drafted(self@, value, pos, channel_index as int, made, drafts@));
        assert(drafted_somehow(self@, value, pos, channel_index as int, drafts@));
        Ok(drafts)
    }
}

/// The operations and snapshots of an edit have increasing keys.
proof fn lemma_edit_lists(
    s: SharedModel,
    pos: Vector3i,
    ops: Seq<SharedVoxelDataTransactionOperation>,
    snapshots: Seq<SharedVoxelDataTransactionBlockSnapshot>,
)
    requires
        ops.len() <= 24,
        ops.len() == snapshots.len(),
        forall|k: int|
            0 <= k < ops.len() ==> (#[trigger] ops[k])@.place() == edited_location(pos, k),
        forall|k: int|
            0 <= k < ops.len() ==> (#[trigger] snapshots[k])@.location == edited_location(pos, k),
    ensures
        sorting::increasing(ops),
        sorting::increasing(snapshots),
        transaction_preview::observed_keys(
            s.data,
            prepared_transaction::operations_of(ops),
            snapshots,
        ) == Seq::<transaction::PreparedSharedVoxelDataExpectation>::empty(),
{
    assert forall|i: int, j: int| 0 <= i < j < ops.len() implies (#[trigger] ops[i]).key() < (
    #[trigger] ops[j]).key() by {
        transaction::lemma_location_key(edited_location(pos, i), edited_location(pos, j));
    }
    assert forall|i: int, j: int| 0 <= i < j < snapshots.len() implies (
    #[trigger] snapshots[i]).key() < (#[trigger] snapshots[j]).key() by {
        transaction::lemma_location_key(edited_location(pos, i), edited_location(pos, j));
    }
    let models = prepared_transaction::operations_of(ops);
    let other = |x: SharedVoxelDataTransactionBlockSnapshot|
        !transaction_preview::operated(models, x@.location);
    collections::lemma_filter_facts(snapshots, other);
    let left = snapshots.filter(other);
    if left.len() > 0 {
        assert(left.contains(left[0]));
        assert(snapshots.contains(left[0]) && other(left[0]));
        let k = choose|k: int| 0 <= k < snapshots.len() && snapshots[k] == left[0];
        assert(models[k] == ops[k]@);
        assert(models[k].place() == snapshots[k]@.location);
    }
    assert(transaction_preview::observed_keys(s.data, models, snapshots) =~= Seq::empty());
}

impl SharedVoxelData {
    /// Prepares setting one voxel, together with the blocks of all coarser
    /// levels that it lies in, without changing anything. Nothing is prepared
    /// where the voxel is out of bounds, or where a block has no voxels and may
    /// not be made.
    pub fn prepare_voxel_edit(&self, value: u64, position: Vector3i, channel_index: usize) -> (r:
        Result<Option<PreparedSharedVoxelDataEdit>, SharedVoxelDataMutationError>)
        requires
            self.wf(),
        ensures
            exists|
                drafts: bool,
                lists: bool,
                made: Seq<BufferModel>,
                snapshots: Seq<SharedVoxelDataTransactionBlockSnapshot>,
                failed: Option<SharedVoxelDataTransactionReservation>,
            | #[trigger]
                prepared_edit_outcome(
                    self@,
                    value,
                    position,
                    channel_index,
                    drafts,
                    lists,
                    made,
                    snapshots,
                    failed,
                    r,
                ) && (failed matches Some(x) ==> x
                    == SharedVoxelDataTransactionReservation::OperationStorage || x
                    == SharedVoxelDataTransactionReservation::RemovedOutcome),
    {
        let mut room: Vec<EditDraft> = Vec::new();
        let mut operations: Vec<SharedVoxelDataTransactionOperation> = Vec::new();
        let mut snapshots: Vec<SharedVoxelDataTransactionBlockSnapshot> = Vec::new();
        let mut inserted_locations: Vec<BlockLocation> = Vec::new();
        let n: usize = self.lod_count();
        let drafts_reserved = room.try_reserve(n).is_ok();
        let lists_reserved = operations.try_reserve(n).is_ok() && snapshots.try_reserve(n).is_ok()
            && inserted_locations.try_reserve(n).is_ok();
        let mut transaction = TransactionLists::new();
        let failed = transaction.try_reserve(n, n);
        self.prepare_voxel_edit_in(
            value,
            position,
            channel_index,
            EditLists { room, operations, snapshots, inserted_locations, transaction },
            drafts_reserved,
            lists_reserved,
            failed,
        )
    }

    /// `prepare_voxel_edit`, where `drafts_reserved` and `lists_reserved` say
    /// for which lists there is room, and `failed` is the reservation for the
    /// transaction that fails.
    pub fn prepare_voxel_edit_reserved(
        &self,
        value: u64,
        position: Vector3i,
        channel_index: usize,
        drafts_reserved: bool,
        lists_reserved: bool,
        failed: Option<SharedVoxelDataTransactionReservation>,
    ) -> (r: Result<Option<PreparedSharedVoxelDataEdit>, SharedVoxelDataMutationError>)
        requires
            self.wf(),
        ensures
            exists|
                made: Seq<BufferModel>,
                snapshots: Seq<SharedVoxelDataTransactionBlockSnapshot>,
            | #[trigger]
                prepared_edit_outcome(
                    self@,
                    value,
                    position,
                    channel_index,
                    drafts_reserved,
                    lists_reserved,
                    made,
                    snapshots,
                    failed,
                    r,
                ),
    {
        let lists = EditLists {
            room: Vec::new(),
            operations: Vec::new(),
            snapshots: Vec::new(),
            inserted_locations: Vec::new(),
            transaction: TransactionLists::new(),
        };
        self.prepare_voxel_edit_in(
            value,
            position,
            channel_index,
            lists,
            drafts_reserved,
            lists_reserved,
            failed,
        )
    }

    /// `prepare_voxel_edit`, with the lists to be used.
    fn prepare_voxel_edit_in(
        &self,
        value: u64,
        position: Vector3i,
        channel_index: usize,
        lists: EditLists,
        drafts_reserved: bool,
        lists_reserved: bool,
        failed: Option<SharedVoxelDataTransactionReservation>,
    ) -> (r: Result<Option<PreparedSharedVoxelDataEdit>, SharedVoxelDataMutationError>)
        requires
            self.wf(),
            lists.room@.len() == 0,
            lists.operations@.len() == 0,
            lists.snapshots@.len() == 0,
            lists.inserted_locations@.len() == 0,
            lists.transaction.blank(),
        ensures
            exists|
                made: Seq<BufferModel>,
                snapshots: Seq<SharedVoxelDataTransactionBlockSnapshot>,
            | #[trigger]
                prepared_edit_outcome(
                    self@,
                    value,
                    position,
                    channel_index,
                    drafts_reserved,
                    lists_reserved,
                    made,
                    snapshots,
                    failed,
                    r,
                ),
    {
        let ghost s = self@;
        let ghost d = s.data;
        let mut lists = lists;
        let mut room: Vec<EditDraft> = Vec::new();
        std::mem::swap(&mut room, &mut lists.room);
        let drafts = match self.draft_voxel_edit(
            value,
            position,
            channel_index,
            room,
            drafts_reserved,
            lists_reserved,
        ) {
            Ok(drafts) => drafts,
            Err(stop) => {
                let r = match stop {
                    Some(e) => Err(e),
                    None => Ok(None),
                };
                assert(prepared_edit_outcome(
                    s,
                    value,
                    position,
                    channel_index,
                    drafts_reserved,
                    lists_reserved,
                    Seq::empty(),
                    Seq::empty(),
                    failed,
                    r,
                ));
                return r;
            },
        };
        let ghost made = choose|made: Seq<BufferModel>| #[trigger]
            drafted(s, value, position, channel_index as int, made, drafts@);
        let lists = self.list_edit(value, position, channel_index, drafts, lists, Ghost(made));
        let ghost ops = edit_operations(d, position, channel_index as int, value, made);
        let ghost listed = lists.snapshots@;
        let ghost given = lists.operations@;
        let edited_block = BlockLocation {
            position: VoxelDataMap::voxel_to_block(position),
            lod_index: 0,
        };
        proof {
            self.lemma_wf();
            voxel_data_map::lemma_local(position);
            assert(edited_block == edited_location(position, 0));
            assert(ops.len() == d.lods.len());
            assert(given.len() == prepared_transaction::operations_of(given).len());
            assert(listed.len() == resident_copies::snapshots_of(listed).len());
            lemma_no_overflow(d, position, 0, d.lods.len() as int);
            assert forall|k: int| 0 <= k < given.len() implies (#[trigger] given[k])@.place()
                == edited_location(position, k) by {
                assert(given[k]@ == prepared_transaction::operations_of(given)[k]);
                assert(ops[k] == prepared_transaction::operations_of(given)[k]);
            }
            assert forall|k: int| 0 <= k < listed.len() implies (#[trigger] listed[k])@
                == transaction_preview::snapshot_of(
                d,
                edited_location(position, k),
                edit_lineage(s),
            ) by {
                assert(listed[k]@ == resident_copies::snapshots_of(listed)[k]);
            }
            lemma_edit_lists(s, position, given, listed);
        }
        let block_revision: u64 = self.lod(0).key_revision(edited_block.position) + 1;
        let prepared = self.prepare_transaction_from_snapshots_reserved(
            lists.operations,
            &lists.snapshots,
            self.settings_revision(),
            lists.transaction,
            failed,
        );
        let ghost sorted = choose|sorted: Seq<SharedVoxelDataTransactionBlockSnapshot>| #[trigger]
            transaction_preview::preview_outcome(
                s,
                given,
                listed,
                sorted,
                s.settings_revision,
                failed,
                prepared,
            );
        proof {
            if failed != Some(SharedVoxelDataTransactionReservation::PreviewSnapshotStorage) {
                sorting::lemma_sorted_unique(listed, sorted);
                if prepared is Ok {
                    sorting::lemma_sorted_unique(given, prepared->Ok_0.operations());
                } else {
                    sorting::lemma_sorted_unique(given, prepared->Err_0.operations@);
                }
            }
        }
        let r = match prepared {
            Ok(transaction) => Ok(
                Some(
                    PreparedSharedVoxelDataEdit {
                        transaction,
                        edited_block,
                        block_revision,
                        inserted_locations: lists.inserted_locations,
                    },
                ),
            ),
            Err(e) => Err(e.into_parts().0),
        };
        assert(prepared_edit_outcome(
            s,
            value,
            position,
            channel_index,
            drafts_reserved,
            lists_reserved,
            made,
            listed,
            failed,
            r,
        ));
        r
    }

    /// The blocks of an edit, or where preparing it ends.
    fn draft_voxel_edit(
        &self,
        value: u64,
        position: Vector3i,
        channel_index: usize,
        room: Vec<EditDraft>,
        drafts_reserved: bool,
        lists_reserved: bool,
    ) -> (r: Result<Vec<EditDraft>, Option<SharedVoxelDataMutationError>>)
        requires
            self.wf(),
            room@.len() == 0,
        ensures
            match edit_answer(
                self@,
                position,
                channel_index,
                drafts_reserved,
                lists_reserved,
            ) {
                EditAnswer::Refused(e) => r matches Err(Some(x)) && x == e,
                EditAnswer::Nothing => r matches Err(None),
                EditAnswer::Possible => r matches Ok(drafts) && drafts@.len()
                    == self@.data.lods.len() && drafted_somehow(
                    self@,
                    value,
                    position,
                    channel_index as int,
                    drafts@,
                ),
            },
            channel_index >= MAX_CHANNELS ==> r is Err,
    {
        let ghost d = self@.data;
        if channel_index >= MAX_CHANNELS {
            return Err(Some(SharedVoxelDataMutationError::InvalidChannel { channel_index }));
        }
        let bounds = self.bounds();
        match boxes::checked_box_intersection(bounds, bounds) {
            Ok(bounds) => {
                if !bounds.contains_point(position) {
                    return Err(None);
                }
            },
            Err(_) => {
                return Err(
                    Some(SharedVoxelDataMutationError::SpatialBoundsOverflow { lod_index: 0 }),
                );
            },
        }
        if !drafts_reserved {
            return Err(Some(SharedVoxelDataMutationError::CapacityReservationFailed));
        }
        let preview = self.preview(0);
        let drafts = match self.draft_edit(&preview, value, position, channel_index, room) {
            Ok(drafts) => drafts,
            Err(stop) => {
                return Err(stop);
            },
        };
        let n: usize = drafts.len();
        proof {
            self.lemma_wf();
        }
        let ghost made = choose|made: Seq<BufferModel>| #[trigger]
            drafted(self@, value, position, channel_index as int, made, drafts@);
        let mut l: usize = 0;
        while l < n
            invariant
                l <= n,
                n == drafts@.len(),
                n == d.lods.len(),
                d == self@.data,
                drafted(self@, value, position, channel_index as int, made, drafts@),
                first_overflow(d, position, l as int) is None,
                edit_answer(self@, position, channel_index, drafts_reserved, lists_reserved)
                    == match first_overflow(d, position, n as int) {
                    Some(e) => EditAnswer::Refused(e),
                    None => if lists_reserved {
                        EditAnswer::Possible
                    } else {
                        EditAnswer::Refused(
                            SharedVoxelDataMutationError::CapacityReservationFailed,
                        )
                    },
                },
                channel_index < MAX_CHANNELS,
                n < 24,
            decreases n - l,
        {
            let snapshot = &drafts[l].snapshot;
            let location = snapshot.location();
            proof {
                assert(drafts@[l as int].snapshot@ == transaction_preview::snapshot_of(
                    d,
                    edited_location(position, l as int),
                    edit_lineage(self@),
                ));
                if first_overflow(d, position, l + 1) is Some {
                    lemma_overflow_stays(d, position, l + 1, n as int);
                }
            }
            if snapshot.revision().value() == u64::MAX {
                return Err(
                    Some(
                        SharedVoxelDataMutationError::KeyRevisionOverflow {
                            position: location.position,
                            lod_index: l,
                        },
                    ),
                );
            }
            l = l + 1;
        }
        if !lists_reserved {
            return Err(Some(SharedVoxelDataMutationError::CapacityReservationFailed));
        }
        Ok(drafts)
    }

    /// The operations, snapshots and insertions of drafted blocks.
    fn list_edit(
        &self,
        value: u64,
        position: Vector3i,
        channel_index: usize,
        drafts: Vec<EditDraft>,
        lists: EditLists,
        Ghost(made): Ghost<Seq<BufferModel>>,
    ) -> (r: EditLists)
        requires
            self.wf(),
            drafts@.len() == self@.data.lods.len(),
            drafted(self@, value, position, channel_index as int, made, drafts@),
            lists.operations@.len() == 0,
            lists.snapshots@.len() == 0,
            lists.inserted_locations@.len() == 0,
        ensures
            prepared_transaction::operations_wf(r.operations@),
            prepared_transaction::operations_of(r.operations@) == edit_operations(
                self@.data,
                position,
                channel_index as int,
                value,
                made,
            ),
            resident_copies::snapshots_of(r.snapshots@) == edit_snapshots(
                self@.data,
                position,
                edit_lineage(self@),
            ),
            r.inserted_locations@ == edit_insertions(
                self@.data,
                position,
                self@.data.lods.len() as int,
            ),
            r.transaction == lists.transaction,
    {
        let ghost d = self@.data;
        let ghost c = channel_index as int;
        let ghost all = drafts@;
        let ghost ops = edit_operations(d, position, c, value, made);
        proof {
            self.lemma_wf();
        }
        let mut operations = lists.operations;
        let mut snapshots = lists.snapshots;
        let mut inserted_locations = lists.inserted_locations;
        let mut drafts = drafts;
        let n: usize = drafts.len();
        let mut l: usize = 0;
        while l < n
            invariant
                l <= n,
                n == all.len(),
                n == d.lods.len(),
                n < 24,
                d == self@.data,
                ops == edit_operations(d, position, c, value, made),
                drafted(self@, value, position, c, made, all),
                drafts@ == all.skip(l as int),
                operations@.len() == l,
                snapshots@.len() == l,
                prepared_transaction::operations_wf(operations@),
                forall|k: int| 0 <= k < l ==> (#[trigger] operations@[k])@ == ops[k],
                forall|k: int|
                    0 <= k < l ==> (#[trigger] snapshots@[k])@ == transaction_preview::snapshot_of(
                        d,
                        edited_location(position, k),
                        edit_lineage(self@),
                    ),
                inserted_locations@ == edit_insertions(d, position, l as int),
            decreases n - l,
        {
            let draft = drafts.remove(0);
            proof {
                assert(draft == all[l as int]);
                assert(drafts@ =~= all.skip(l + 1));
            }
            let location = draft.snapshot.location();
            let operation = if draft.snapshot.is_present() {
                SharedVoxelDataTransactionOperation::Replace { location, block: draft.block }
            } else {
                inserted_locations.push(location);
                SharedVoxelDataTransactionOperation::Insert {
                    location,
                    block: draft.block,
                    final_viewers: 0,
                }
            };
            assert(operation@ == ops[l as int]);
            snapshots.push(draft.snapshot);
            operations.push(operation);
            l = l + 1;
        }
        proof {
            assert(prepared_transaction::operations_of(operations@) =~= ops);
            assert(resident_copies::snapshots_of(snapshots@) =~= edit_snapshots(
                d,
                position,
                edit_lineage(self@),
            ));
        }
        EditLists {
            room: Vec::new(),
            operations,
            snapshots,
            inserted_locations,
            transaction: lists.transaction,
        }
    }
}

/// The lists that an edit is prepared with.
struct EditLists {
    room: Vec<EditDraft>,
    operations: Vec<SharedVoxelDataTransactionOperation>,
    snapshots: Vec<SharedVoxelDataTransactionBlockSnapshot>,
    inserted_locations: Vec<BlockLocation>,
    transaction: TransactionLists,
}

} // verus!
