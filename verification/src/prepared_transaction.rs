//! Prepared transactions and their commit.

use crate::boxes::BoxBounds3i;
use crate::collections;
use crate::mutation_error::{
    SharedVoxelDataMutationError, SharedVoxelDataTransactionReservation,
};
use crate::revision;
use crate::shared_data::{
    DataLineage, SharedModel, SharedVoxelData, SharedVoxelDataShutdownMutationPermit,
};
use crate::sorting;
use crate::sorting::Keyed;
use crate::transaction;
use crate::transaction::{
    OperationModel, PreparedSharedVoxelDataExpectation, SharedVoxelDataTransactionOperation,
};
use crate::voxel_data::{BlockLocation, DataModel};
use crate::voxel_data_block::{BlockModel, VoxelDataBlock};
use crate::voxel_data_map;
use crate::voxel_data_map::MapModel;
use vstd::prelude::*;

verus! {

/// What a list of operations holds.
pub open spec fn operations_of(s: Seq<SharedVoxelDataTransactionOperation>) -> Seq<OperationModel> {
    s.map_values(|op: SharedVoxelDataTransactionOperation| op@)
}

/// The blocks that the operations bring along are well-formed.
pub open spec fn operations_wf(s: Seq<SharedVoxelDataTransactionOperation>) -> bool {
    forall|k: int| 0 <= k < s.len() ==> (#[trigger] s[k]).wf()
}

/// `b` has the operations of `a`, in the order of their keys.
pub open spec fn sorted_from(
    a: Seq<SharedVoxelDataTransactionOperation>,
    b: Seq<SharedVoxelDataTransactionOperation>,
) -> bool {
    sorting::in_order(b) && b.to_multiset() == a.to_multiset()
}

/// The first key that two neighbours among the first `n` operations share.
pub open spec fn first_duplicate(ops: Seq<OperationModel>, n: int) -> Option<BlockLocation>
    decreases n,
{
    if n < 2 {
        None
    } else {
        match first_duplicate(ops, n - 1) {
            Some(l) => Some(l),
            None => if ops[n - 2].place() == ops[n - 1].place() {
                Some(ops[n - 1].place())
            } else {
                None
            },
        }
    }
}

/// Memory could not be reserved.
pub open spec fn no_room(
    reservation: SharedVoxelDataTransactionReservation,
) -> SharedVoxelDataMutationError {
    SharedVoxelDataMutationError::PreparedTransactionCapacityReservationFailed { reservation }
}

/// Why operations, in the order of their keys, cannot be prepared; `failed` is
/// the reservation that fails.
pub open spec fn prepare_refusal(
    d: DataModel,
    ops: Seq<OperationModel>,
    failed: Option<SharedVoxelDataTransactionReservation>,
) -> Option<SharedVoxelDataMutationError> {
    let error = collections::first_some(ops, transaction::operation_errors(d));
    match first_duplicate(ops, ops.len() as int) {
        Some(location) => Some(
            SharedVoxelDataMutationError::DuplicatePreparedTransactionOperation { location },
        ),
        None => if failed == Some(SharedVoxelDataTransactionReservation::OperationStorage) {
            Some(no_room(SharedVoxelDataTransactionReservation::OperationStorage))
        } else if error is Some {
            error
        } else if failed == Some(SharedVoxelDataTransactionReservation::RemovedOutcome) {
            Some(no_room(SharedVoxelDataTransactionReservation::RemovedOutcome))
        } else if failed == Some(SharedVoxelDataTransactionReservation::SpatialPreparation) {
            Some(no_room(SharedVoxelDataTransactionReservation::SpatialPreparation))
        } else {
            None
        },
    }
}

/// Preparing operations asks for this kind of room: for the operations where
/// there are any, for blocks that leave where one does.
pub open spec fn needed_by_prepare(
    ops: Seq<OperationModel>,
    r: SharedVoxelDataTransactionReservation,
) -> bool {
    ||| r == SharedVoxelDataTransactionReservation::OperationStorage && ops.len() > 0
    ||| r == SharedVoxelDataTransactionReservation::RemovedOutcome && exists|k: int|
        0 <= k < ops.len() && (#[trigger] ops[k]).retires()
}

/// Number of operations that take a block out.
pub(crate) fn count_removals(operations: &Vec<SharedVoxelDataTransactionOperation>) -> (n: usize)
    ensures
        n == operations_of(operations@).filter(|op: OperationModel| op.retires()).len(),
{
    let ghost ops = operations_of(operations@);
    let ghost gone = |op: OperationModel| op.retires();
    let mut n: usize = 0;
    let mut i: usize = 0;
    proof {
        collections::lemma_filter_none(ops, gone);
    }
    while i < operations.len()
        invariant
            i <= operations@.len(),
            n <= i,
            ops == operations_of(operations@),
            gone == (|op: OperationModel| op.retires()),
            n == ops.take(i as int).filter(gone).len(),
        decreases operations@.len() - i,
    {
        proof {
            collections::lemma_filter_take(ops, gone, i as int);
            assert(ops[i as int] == operations@[i as int]@);
        }
        match &operations[i] {
            SharedVoxelDataTransactionOperation::Replace { .. } => {
                n = n + 1;
            },
            SharedVoxelDataTransactionOperation::Remove { .. } => {
                n = n + 1;
            },
            _ => {},
        }
        i = i + 1;
    }
    assert(ops.take(i as int) =~= ops);
    n
}

/// Operations that could not be prepared, and why.
#[derive(Debug)]
pub struct PreparedSharedVoxelDataTransactionPrepareError {
    pub error: SharedVoxelDataMutationError,
    pub operations: Vec<SharedVoxelDataTransactionOperation>,
}

impl PreparedSharedVoxelDataTransactionPrepareError {
    pub fn error(&self) -> (e: &SharedVoxelDataMutationError)
        ensures
            *e == self.error,
    {
        &self.error
    }

    pub fn operations(&self) -> (ops: &Vec<SharedVoxelDataTransactionOperation>)
        ensures
            *ops == self.operations,
    {
        &self.operations
    }

    pub fn into_parts(self) -> (r: (
        SharedVoxelDataMutationError,
        Vec<SharedVoxelDataTransactionOperation>,
    ))
        ensures
            r.0 == self.error,
            r.1 == self.operations,
    {
        (self.error, self.operations)
    }
}

/// A block that a transaction took out, with the revision it had.
#[derive(Debug)]
pub struct RemovedSharedVoxelDataBlock {
    pub location: BlockLocation,
    pub block: VoxelDataBlock,
    pub block_revision: u64,
}

/// What a removed block holds.
#[verifier::ext_equal]
pub struct RemovedModel {
    pub location: BlockLocation,
    pub block: BlockModel,
    pub block_revision: u64,
}

impl View for RemovedSharedVoxelDataBlock {
    type V = RemovedModel;

    open spec fn view(&self) -> RemovedModel {
        RemovedModel {
            location: self.location,
            block: self.block@,
            block_revision: self.block_revision,
        }
    }
}

impl RemovedSharedVoxelDataBlock {
    pub fn location(&self) -> (l: BlockLocation)
        ensures
            l == self@.location,
    {
        self.location
    }

    pub fn block(&self) -> (b: &VoxelDataBlock)
        ensures
            b@ == self@.block,
            *b == self.block,
    {
        &self.block
    }

    pub fn block_revision(&self) -> (n: u64)
        ensures
            n == self@.block_revision,
    {
        self.block_revision
    }

    pub fn into_parts(self) -> (r: (BlockLocation, VoxelDataBlock))
        ensures
            r.0 == self@.location,
            r.1 == self.block,
    {
        (self.location, self.block)
    }
}

/// What a list of removed blocks holds.
pub open spec fn removed_of(s: Seq<RemovedSharedVoxelDataBlock>) -> Seq<RemovedModel> {
    s.map_values(|b: RemovedSharedVoxelDataBlock| b@)
}

/// Every removed block is well-formed.
pub open spec fn removed_wf(s: Seq<RemovedSharedVoxelDataBlock>) -> bool {
    forall|k: int| 0 <= k < s.len() ==> (#[trigger] s[k]).block.wf()
}

/// What a committed transaction leaves behind.
#[derive(Debug)]
pub struct PreparedSharedVoxelDataTransactionOutcome {
    removed_blocks: Vec<RemovedSharedVoxelDataBlock>,
}

impl View for PreparedSharedVoxelDataTransactionOutcome {
    type V = Seq<RemovedModel>;

    closed spec fn view(&self) -> Seq<RemovedModel> {
        removed_of(self.removed_blocks@)
    }
}

impl PreparedSharedVoxelDataTransactionOutcome {
    pub closed spec fn wf(&self) -> bool {
        removed_wf(self.removed_blocks@)
    }

    pub fn removed_blocks(&self) -> (v: &Vec<RemovedSharedVoxelDataBlock>)
        ensures
            removed_of(v@) == self@,
            self.wf() ==> removed_wf(v@),
    {
        &self.removed_blocks
    }

    pub fn into_removed_blocks(self) -> (v: Vec<RemovedSharedVoxelDataBlock>)
        ensures
            removed_of(v@) == self@,
            self.wf() ==> removed_wf(v@),
    {
        self.removed_blocks
    }
}

/// What a prepared transaction holds.
#[verifier::ext_equal]
pub struct TransactionModel {
    /// The data that the transaction is for.
    pub lineage: DataLineage,
    pub lod_count: nat,
    pub settings_revision: u64,
    pub operations: Seq<OperationModel>,
    pub expectations: Seq<PreparedSharedVoxelDataExpectation>,
    /// Keys that have to be as they were, but are not changed.
    pub observations: Seq<PreparedSharedVoxelDataExpectation>,
    /// The data whose changes were permitted after they were no longer
    /// admitted.
    pub permit: Option<DataLineage>,
    pub committed: bool,
}

/// Operations on block keys that are made together or not at all, with what
/// they expect of the keys.
#[derive(Debug)]
pub struct PreparedSharedVoxelDataTransaction {
    lineage: DataLineage,
    lod_count: usize,
    expected_settings_revision: u64,
    operations: Vec<SharedVoxelDataTransactionOperation>,
    expectations: Vec<PreparedSharedVoxelDataExpectation>,
    observations: Vec<PreparedSharedVoxelDataExpectation>,
    removed_blocks: Vec<RemovedSharedVoxelDataBlock>,
    shutdown_mutation_lineage: Option<DataLineage>,
    committed: bool,
}

impl View for PreparedSharedVoxelDataTransaction {
    type V = TransactionModel;

    closed spec fn view(&self) -> TransactionModel {
        TransactionModel {
            lineage: self.lineage,
            lod_count: self.lod_count as nat,
            settings_revision: self.expected_settings_revision,
            operations: operations_of(self.operations@),
            expectations: self.expectations@,
            observations: self.observations@,
            permit: self.shutdown_mutation_lineage,
            committed: self.committed,
        }
    }
}

/// An expectation belongs to an operation.
pub open spec fn expects(
    op: OperationModel,
    e: PreparedSharedVoxelDataExpectation,
    lod_count: nat,
) -> bool {
    &&& e.location == op.place()
    &&& (e.location.lod_index as nat) < lod_count
    &&& e.expected_block_state is None <==> op is Insert
    &&& op.payload() matches Some(b) ==> voxel_data_map::block_fits(b)
}

impl TransactionModel {
    /// Every operation has its expectation; the operations are in the order of
    /// their keys, and no key occurs twice; all levels exist.
    pub open spec fn wf(self) -> bool {
        &&& self.operations.len() == self.expectations.len()
        &&& forall|k: int|
            0 <= k < self.operations.len() ==> expects(
                #[trigger] self.operations[k],
                self.expectations[k],
                self.lod_count,
            )
        &&& forall|i: int, j: int|
            0 <= i < j < self.operations.len() ==> transaction::location_key(
                (#[trigger] self.operations[i]).place(),
            ) < transaction::location_key((#[trigger] self.operations[j]).place())
        &&& forall|k: int|
            0 <= k < self.observations.len() ==> ((
            #[trigger] self.observations[k]).location.lod_index as nat) < self.lod_count
    }
}

impl PreparedSharedVoxelDataTransaction {
    pub closed spec fn wf(&self) -> bool {
        &&& operations_wf(self.operations@)
        &&& self@.wf()
        &&& self.removed_blocks@ == Seq::<RemovedSharedVoxelDataBlock>::empty()
    }

    pub proof fn lemma_wf(&self)
        requires
            self.wf(),
        ensures
            self@.wf(),
    {
    }

    /// The operations.
    pub closed spec fn operations(&self) -> Seq<SharedVoxelDataTransactionOperation> {
        self.operations@
    }

    pub proof fn lemma_operations(&self)
        ensures
            self@.operations == operations_of(self.operations()),
    {
    }
}

/// Lists in which room for a transaction may have been reserved.
pub struct TransactionLists {
    expectations: Vec<PreparedSharedVoxelDataExpectation>,
    removed_blocks: Vec<RemovedSharedVoxelDataBlock>,
}

impl TransactionLists {
    /// The lists are empty.
    pub closed spec fn blank(&self) -> bool {
        &&& self.expectations@ == Seq::<PreparedSharedVoxelDataExpectation>::empty()
        &&& self.removed_blocks@ == Seq::<RemovedSharedVoxelDataBlock>::empty()
    }

    pub fn new() -> (l: TransactionLists)
        ensures
            l.blank(),
    {
        TransactionLists { expectations: Vec::new(), removed_blocks: Vec::new() }
    }

    /// Asks for room for a number of operations and for the blocks that they
    /// take out. Returns the reservation that failed. There is always room for
    /// none.
    pub fn try_reserve(&mut self, operations: usize, removals: usize) -> (failed: Option<
        SharedVoxelDataTransactionReservation,
    >)
        requires
            old(self).blank(),
        ensures
            final(self).blank(),
            failed matches Some(r) ==> {
                ||| r == SharedVoxelDataTransactionReservation::OperationStorage && operations > 0
                ||| r == SharedVoxelDataTransactionReservation::RemovedOutcome && removals > 0
            },
    {
        if operations > 0 && self.expectations.try_reserve(operations).is_err() {
            Some(SharedVoxelDataTransactionReservation::OperationStorage)
        } else if removals > 0 && self.removed_blocks.try_reserve(removals).is_err() {
            Some(SharedVoxelDataTransactionReservation::RemovedOutcome)
        } else {
            None
        }
    }
}

/// A transaction freshly prepared from operations in the order of their keys.
pub open spec fn freshly_prepared(
    s: SharedModel,
    ops: Seq<OperationModel>,
    settings_revision: u64,
) -> TransactionModel {
    TransactionModel {
        lineage: s.lineage,
        lod_count: s.data.lods.len(),
        settings_revision,
        operations: ops,
        expectations: ops.map_values(|op: OperationModel| transaction::expectation_of(s.data, op)),
        observations: Seq::empty(),
        permit: None,
        committed: false,
    }
}

/// What comes of preparing operations. The operations come back in the order of
/// their keys, in the transaction or with the error.
pub open spec fn prepare_outcome(
    s: SharedModel,
    operations: Seq<SharedVoxelDataTransactionOperation>,
    settings_revision: u64,
    failed: Option<SharedVoxelDataTransactionReservation>,
    r: Result<
        PreparedSharedVoxelDataTransaction,
        PreparedSharedVoxelDataTransactionPrepareError,
    >,
) -> bool {
    match r {
        Ok(t) => {
            let ops = operations_of(t.operations());
            &&& t.wf()
            &&& sorted_from(operations, t.operations())
            &&& prepare_refusal(s.data, ops, failed) is None
            &&& t@ == freshly_prepared(s, ops, settings_revision)
        },
        Err(e) => {
            &&& operations_wf(e.operations@)
            &&& sorted_from(operations, e.operations@)
            &&& prepare_refusal(s.data, operations_of(e.operations@), failed) == Some(e.error)
        },
    }
}

/// Operations in the order of their keys that have no duplicate neighbours have
/// increasing keys.
proof fn lemma_increasing_keys(ops: Seq<SharedVoxelDataTransactionOperation>, n: int)
    requires
        sorting::in_order(ops),
        0 <= n <= ops.len(),
        first_duplicate(operations_of(ops), n) is None,
    ensures
        forall|i: int, j: int|
            0 <= i < j < n ==> transaction::location_key(
                (#[trigger] operations_of(ops)[i]).place(),
            ) < transaction::location_key((#[trigger] operations_of(ops)[j]).place()),
    decreases n,
{
    if n >= 2 {
        lemma_increasing_keys(ops, n - 1);
        let models = operations_of(ops);
        assert forall|i: int, j: int| 0 <= i < j < n implies transaction::location_key(
            (#[trigger] models[i]).place(),
        ) < transaction::location_key((#[trigger] models[j]).place()) by {
            if j == n - 1 {
                assert(models[n - 2].place() != models[n - 1].place());
                assert(ops[i].key() <= ops[n - 2].key());
                assert(ops[n - 2].key() <= ops[n - 1].key());
                transaction::lemma_location_key(models[i].place(), models[j].place());
                transaction::lemma_location_key(models[n - 2].place(), models[n - 1].place());
                if i < n - 2 {
                    assert(models[i].place() != models[n - 2].place());
                    transaction::lemma_location_key(models[i].place(), models[n - 2].place());
                }
            }
        }
    }
}

/// The first key that neighbours share.
fn find_duplicate(ops: &Vec<SharedVoxelDataTransactionOperation>) -> (r: Option<BlockLocation>)
    ensures
        r == first_duplicate(operations_of(ops@), ops@.len() as int),
{
    let ghost models = operations_of(ops@);
    let n: usize = ops.len();
    let mut i: usize = 1;
    while i < n
        invariant
            1 <= i,
            n == ops@.len(),
            i <= n || n == 0,
            models == operations_of(ops@),
            first_duplicate(models, i as int) is None,
        decreases n - i,
    {
        let a = ops[i - 1].location();
        let b = ops[i].location();
        proof {
            assert(models[i - 1] == ops@[i - 1]@);
            assert(models[i as int] == ops@[i as int]@);
        }
        if a == b {
            proof {
                lemma_duplicate_stays(models, i + 1, n as int);
            }
            return Some(b);
        }
        i = i + 1;
    }
    None
}

proof fn lemma_duplicate_stays(ops: Seq<OperationModel>, i: int, n: int)
    requires
        i <= n,
        first_duplicate(ops, i) is Some,
    ensures
        first_duplicate(ops, n) == first_duplicate(ops, i),
    decreases n - i,
{
    if i < n {
        lemma_duplicate_stays(ops, i, n - 1);
    }
}

fn prepare_failed(
    reservation: SharedVoxelDataTransactionReservation,
    operations: Vec<SharedVoxelDataTransactionOperation>,
) -> (e: PreparedSharedVoxelDataTransactionPrepareError)
    ensures
        e.error == no_room(reservation),
        e.operations == operations,
{
    PreparedSharedVoxelDataTransactionPrepareError {
        error: SharedVoxelDataMutationError::PreparedTransactionCapacityReservationFailed {
            reservation,
        },
        operations,
    }
}

impl SharedVoxelData {
    /// Prepares operations without changing the data.
    pub fn prepare_transaction(
        &self,
        operations: Vec<SharedVoxelDataTransactionOperation>,
    ) -> (r: Result<
        PreparedSharedVoxelDataTransaction,
        PreparedSharedVoxelDataTransactionPrepareError,
    >)
        requires
            self.wf(),
            operations_wf(operations@),
        ensures
            exists|failed: Option<SharedVoxelDataTransactionReservation>| #[trigger]
                prepare_outcome(self@, operations@, self@.settings_revision, failed, r) && (
                failed matches Some(x) ==> needed_by_prepare(operations_of(operations@), x)),
    {
        self.prepare_transaction_at_settings_revision(operations, self.settings_revision())
    }

    /// `prepare_transaction`, for the settings of a given revision.
    pub(crate) fn prepare_transaction_at_settings_revision(
        &self,
        operations: Vec<SharedVoxelDataTransactionOperation>,
        expected_settings_revision: u64,
    ) -> (r: Result<
        PreparedSharedVoxelDataTransaction,
        PreparedSharedVoxelDataTransactionPrepareError,
    >)
        requires
            self.wf(),
            operations_wf(operations@),
        ensures
            exists|failed: Option<SharedVoxelDataTransactionReservation>| #[trigger]
                prepare_outcome(self@, operations@, expected_settings_revision, failed, r) && (
                failed matches Some(x) ==> needed_by_prepare(operations_of(operations@), x)),
    {
        let ghost all = operations@;
        let mut lists = TransactionLists::new();
        let failed = lists.try_reserve(operations.len(), count_removals(&operations));
        proof {
            lemma_counted(operations_of(all), |op: OperationModel| op.retires());
        }
        let r = self.prepare_transaction_reserved(
            operations,
            expected_settings_revision,
            lists,
            failed,
        );
        assert(prepare_outcome(self@, all, expected_settings_revision, failed, r));
        r
    }

    /// `prepare_transaction_at_settings_revision`, where `failed` is the
    /// reservation that fails.
    #[verifier::loop_isolation(false)]
    pub fn prepare_transaction_reserved(
        &self,
        operations: Vec<SharedVoxelDataTransactionOperation>,
        expected_settings_revision: u64,
        lists: TransactionLists,
        failed: Option<SharedVoxelDataTransactionReservation>,
    ) -> (r: Result<
        PreparedSharedVoxelDataTransaction,
        PreparedSharedVoxelDataTransactionPrepareError,
    >)
        requires
            self.wf(),
            operations_wf(operations@),
            lists.blank(),
        ensures
            prepare_outcome(self@, operations@, expected_settings_revision, failed, r),
    {
        let ghost all = operations@;
        let ghost d = self@.data;
        let ghost error = transaction::operation_errors(d);
        let ghost expect = |op: OperationModel| transaction::expectation_of(d, op);
        proof {
            self.lemma_wf();
        }
        let operations = sorting::sort_by_key(operations);
        let ghost ops = operations_of(operations@);
        proof {
            sorting::lemma_same_members(operations@, all);
            assert forall|k: int| 0 <= k < operations@.len() implies (
            #[trigger] operations@[k]).wf() by {
                assert(all.contains(operations@[k]));
                let j = choose|j: int| 0 <= j < all.len() && all[j] == operations@[k];
                assert(all[j].wf());
            }
        }
        match find_duplicate(&operations) {
            Some(location) => {
                return Err(
                    PreparedSharedVoxelDataTransactionPrepareError {
                        error: SharedVoxelDataMutationError::DuplicatePreparedTransactionOperation {
                            location,
                        },
                        operations,
                    },
                );
            },
            None => {},
        }
        if failed == Some(SharedVoxelDataTransactionReservation::OperationStorage) {
            return Err(
                prepare_failed(
                    SharedVoxelDataTransactionReservation::OperationStorage,
                    operations,
                ),
            );
        }
        let mut expectations = lists.expectations;
        let mut i: usize = 0;
        proof {
            assert(collections::first_some(ops.take(0), error) is None);
            assert(expectations@ =~= ops.take(0).map_values(expect));
        }
        while i < operations.len()
            invariant
                i <= operations@.len(),
                self.wf(),
                d == self@.data,
                ops == operations_of(operations@),
                operations_wf(operations@),
                sorted_from(all, operations@),
                first_duplicate(ops, ops.len() as int) is None,
                failed != Some(SharedVoxelDataTransactionReservation::OperationStorage),
                error == transaction::operation_errors(d),
                expect == (|op: OperationModel| transaction::expectation_of(d, op)),
                collections::first_some(ops.take(i as int), error) is None,
                expectations@ == ops.take(i as int).map_values(expect),
            decreases operations@.len() - i,
        {
            proof {
                collections::lemma_first_some_take(ops, error, i as int);
                assert(ops[i as int] == operations@[i as int]@);
            }
            match self.prepare_transaction_operation(&operations[i]) {
                Ok(expectation) => {
                    expectations.push(expectation);
                    assert(expectations@ =~= ops.take(i + 1).map_values(expect));
                },
                Err(e) => {
                    proof {
                        assert(error(ops[i as int]) == Some(e));
                        collections::lemma_first_some_prefix(ops, error, i + 1);
                    }
                    return Err(
                        PreparedSharedVoxelDataTransactionPrepareError { error: e, operations },
                    );
                },
            }
            i = i + 1;
        }
        assert(ops.take(i as int) =~= ops);
        if failed == Some(SharedVoxelDataTransactionReservation::RemovedOutcome) {
            return Err(
                prepare_failed(SharedVoxelDataTransactionReservation::RemovedOutcome, operations),
            );
        }
        if failed == Some(SharedVoxelDataTransactionReservation::SpatialPreparation) {
            return Err(
                prepare_failed(
                    SharedVoxelDataTransactionReservation::SpatialPreparation,
                    operations,
                ),
            );
        }
        let t = PreparedSharedVoxelDataTransaction {
            lineage: self.lineage().clone(),
            lod_count: self.lod_count(),
            expected_settings_revision,
            operations,
            expectations,
            observations: Vec::new(),
            removed_blocks: lists.removed_blocks,
            shutdown_mutation_lineage: None,
            committed: false,
        };
        proof {
            assert(t@.observations =~= Seq::empty());
            lemma_increasing_keys(t.operations@, ops.len() as int);
            collections::lemma_first_some_facts(ops, error);
            assert forall|k: int| 0 <= k < ops.len() implies expects(
                #[trigger] ops[k],
                t@.expectations[k],
                t@.lod_count,
            ) by {
                assert(error(ops[k]) is None);
                assert(t@.expectations[k] == transaction::expectation_of(d, ops[k]));
            }
        }
        Ok(t)
    }
}

/// The conflict, if a block no longer looks as it was expected to.
pub open spec fn state_conflict(m: MapModel, e: PreparedSharedVoxelDataExpectation) -> Option<
    SharedVoxelDataMutationError,
> {
    let p = e.location.position;
    match e.expected_block_state {
        Some(expected) => if !m.has(p) {
            Some(
                SharedVoxelDataMutationError::PreparedTransactionExpectedPresent {
                    location: e.location,
                    actual_revision: m.key_revision(p),
                },
            )
        } else {
            let actual = transaction::state_of(m.blocks[p]);
            if actual != expected {
                Some(
                    SharedVoxelDataMutationError::PreparedTransactionConcurrentBlockState {
                        location: e.location,
                        expected_viewers: expected.viewers,
                        actual_viewers: actual.viewers,
                        expected_modified: expected.modified,
                        actual_modified: actual.modified,
                        expected_edited: expected.edited,
                        actual_edited: actual.edited,
                        expected_has_voxels: expected.has_voxels,
                        actual_has_voxels: actual.has_voxels,
                    },
                )
            } else {
                None
            }
        },
        None => if m.has(p) {
            Some(
                SharedVoxelDataMutationError::PreparedTransactionExpectedTombstone {
                    location: e.location,
                    actual_revision: m.key_revision(p),
                },
            )
        } else {
            None
        },
    }
}

/// The conflict, if a key is no longer as it was expected to be. A key that is
/// to change must also be able to get the revision that was prepared.
pub open spec fn expectation_conflict(
    d: DataModel,
    e: PreparedSharedVoxelDataExpectation,
    changes: bool,
) -> Option<SharedVoxelDataMutationError> {
    let p = e.location.position;
    let l = e.location.lod_index as int;
    let m = d.lods[l];
    let actual = m.key_revision(p);
    let conflict = SharedVoxelDataMutationError::ConcurrentDataMutation {
        position: p,
        lod_index: l as usize,
        expected_revision: e.expected_revision,
        actual_revision: actual,
    };
    if actual != e.expected_revision {
        Some(conflict)
    } else if changes && actual.number() == u64::MAX {
        Some(
            SharedVoxelDataMutationError::KeyRevisionOverflow {
                position: p,
                lod_index: l as usize,
            },
        )
    } else if changes && actual.number() + 1 != e.next_revision {
        Some(conflict)
    } else {
        state_conflict(m, e)
    }
}

/// `expectation_conflict` as a function of the expectation.
pub open spec fn expectation_conflicts(d: DataModel, changes: bool) -> spec_fn(
    PreparedSharedVoxelDataExpectation,
) -> Option<SharedVoxelDataMutationError> {
    |e: PreparedSharedVoxelDataExpectation| expectation_conflict(d, e, changes)
}

impl TransactionModel {
    /// An operation takes a block out.
    pub open spec fn retires(self) -> bool {
        exists|k: int| 0 <= k < self.operations.len() && (#[trigger] self.operations[k]).retires()
    }

    /// An operation puts a block in.
    pub open spec fn inserts(self) -> bool {
        exists|k: int| 0 <= k < self.operations.len() && #[trigger] self.operations[k] is Insert
    }
}

/// Why a transaction may not be committed, whatever the keys are.
pub open spec fn commit_denial(s: SharedModel, t: TransactionModel) -> Option<
    SharedVoxelDataMutationError,
> {
    if t.committed {
        Some(SharedVoxelDataMutationError::PreparedTransactionAlreadyCommitted)
    } else if s.closed && t.operations.len() > 0 && t.permit is None {
        Some(SharedVoxelDataMutationError::MutationAdmissionClosed)
    } else if s.closed && t.operations.len() > 0 && t.permit != Some(s.lineage) {
        Some(SharedVoxelDataMutationError::ShutdownMutationPermitMismatch)
    } else if s.settings_revision != t.settings_revision {
        Some(
            SharedVoxelDataMutationError::ConcurrentSettingsMutation {
                expected_revision: t.settings_revision,
                actual_revision: s.settings_revision,
            },
        )
    } else {
        None
    }
}

/// Why a transaction cannot be committed; `failed` is the reservation that
/// fails.
pub open spec fn commit_refusal(
    s: SharedModel,
    t: TransactionModel,
    failed: Option<SharedVoxelDataTransactionReservation>,
) -> Option<SharedVoxelDataMutationError> {
    let denial = commit_denial(s, t);
    let observed = collections::first_some(t.observations, expectation_conflicts(s.data, false));
    let expected = collections::first_some(t.expectations, expectation_conflicts(s.data, true));
    if denial is Some {
        denial
    } else if failed == Some(SharedVoxelDataTransactionReservation::LiveSpatialRegistry) && (
    t.operations.len() > 0 || t.observations.len() > 0) {
        Some(no_room(SharedVoxelDataTransactionReservation::LiveSpatialRegistry))
    } else if observed is Some {
        observed
    } else if expected is Some {
        expected
    } else if failed == Some(SharedVoxelDataTransactionReservation::RemovedOutcome) && t.retires() {
        Some(no_room(SharedVoxelDataTransactionReservation::RemovedOutcome))
    } else if failed == Some(SharedVoxelDataTransactionReservation::LiveMap) && t.inserts() {
        Some(no_room(SharedVoxelDataTransactionReservation::LiveMap))
    } else if failed == Some(SharedVoxelDataTransactionReservation::LiveKeyRevisions)
        && t.operations.len() > 0 {
        Some(no_room(SharedVoxelDataTransactionReservation::LiveKeyRevisions))
    } else {
        None
    }
}

/// A map after one operation.
pub open spec fn operation_applied(m: MapModel, op: OperationModel, next_revision: u64) ->
    MapModel {
    let p = op.place().position;
    let b = m.blocks[p];
    (match op {
        OperationModel::SetViewersExact { final_viewers, .. } => m.with_block(
            p,
            BlockModel { viewers: final_viewers, ..b },
        ),
        OperationModel::SetViewersExactAndClearModified { final_viewers, .. } => m.with_block(
            p,
            BlockModel { viewers: final_viewers, modified: false, ..b },
        ),
        OperationModel::Insert { block, final_viewers, .. } => m.with_block(
            p,
            BlockModel { viewers: final_viewers, ..block },
        ),
        OperationModel::Replace { block, .. } => m.with_block(p, block),
        OperationModel::ClearModified { .. } => m.with_block(
            p,
            BlockModel { modified: false, ..b },
        ),
        OperationModel::Remove { .. } => m.without_block(p),
    }).with_revision(p, next_revision)
}

/// The levels after the first `n` operations.
pub open spec fn operations_applied(
    lods: Seq<MapModel>,
    ops: Seq<OperationModel>,
    expectations: Seq<PreparedSharedVoxelDataExpectation>,
    n: int,
) -> Seq<MapModel>
    decreases n,
{
    if n <= 0 {
        lods
    } else {
        let before = operations_applied(lods, ops, expectations, n - 1);
        let l = ops[n - 1].place().lod_index as int;
        before.update(
            l,
            operation_applied(before[l], ops[n - 1], expectations[n - 1].next_revision),
        )
    }
}

/// The blocks that the first `n` operations take out.
pub open spec fn operations_removed(
    lods: Seq<MapModel>,
    ops: Seq<OperationModel>,
    n: int,
) -> Seq<RemovedModel>
    decreases n,
{
    if n <= 0 {
        Seq::empty()
    } else {
        let before = operations_removed(lods, ops, n - 1);
        let place = ops[n - 1].place();
        let m = lods[place.lod_index as int];
        if ops[n - 1].retires() {
            before.push(
                RemovedModel {
                    location: place,
                    block: m.blocks[place.position],
                    block_revision: m.revision(place.position),
                },
            )
        } else {
            before
        }
    }
}

/// An operation whose block has moved into the data.
pub open spec fn spent(op: OperationModel) -> OperationModel {
    match op {
        OperationModel::Insert { location, final_viewers, .. } => OperationModel::Insert {
            location,
            block: BlockModel::fresh(None, location.lod_index),
            final_viewers,
        },
        OperationModel::Replace { location, .. } => OperationModel::Replace {
            location,
            block: BlockModel::fresh(None, location.lod_index),
        },
        _ => op,
    }
}

/// The outcome of a commit.
pub open spec fn commit_outcome(
    before: SharedModel,
    t: TransactionModel,
    failed: Option<SharedVoxelDataTransactionReservation>,
    r: Result<Seq<RemovedModel>, SharedVoxelDataMutationError>,
    after: SharedModel,
    spent_t: TransactionModel,
) -> bool {
    let n = t.operations.len() as int;
    match commit_refusal(before, t, failed) {
        Some(e) => r == Err::<Seq<RemovedModel>, _>(e) && after == before && spent_t == t,
        None => {
            &&& r == Ok::<Seq<RemovedModel>, SharedVoxelDataMutationError>(
                operations_removed(before.data.lods, t.operations, n),
            )
            &&& after == before.with_lods(
                operations_applied(before.data.lods, t.operations, t.expectations, n),
            )
            &&& spent_t == (TransactionModel {
                operations: t.operations.map_values(|op: OperationModel| spent(op)),
                committed: true,
                ..t
            })
        },
    }
}

/// A commit of the transaction asks the live data for this kind of room: for
/// blocks where one is put in, for revisions where anything is changed.
pub open spec fn needed_by_commit(
    t: TransactionModel,
    r: SharedVoxelDataTransactionReservation,
) -> bool {
    ||| r == SharedVoxelDataTransactionReservation::LiveMap && t.inserts()
    ||| r == SharedVoxelDataTransactionReservation::LiveKeyRevisions && t.operations.len() > 0
}

/// Where operations of a kind are counted, there is one.
pub proof fn lemma_counted(ops: Seq<OperationModel>, f: spec_fn(OperationModel) -> bool)
    ensures
        ops.filter(f).len() > 0 ==> exists|k: int| 0 <= k < ops.len() && f(#[trigger] ops[k]),
{
    collections::lemma_filter_facts(ops, f);
    let found = ops.filter(f);
    if found.len() > 0 {
        assert(found.contains(found[0]));
        let k = choose|k: int| 0 <= k < ops.len() && ops[k] == found[0];
        assert(f(ops[k]));
    }
}

/// The data that a transaction was prepared for.
pub open spec fn prepared_for(t: TransactionModel, s: SharedModel) -> bool {
    t.lineage == s.lineage && t.lod_count == s.data.lods.len()
}

/// The first expectation that the data does not meet.
fn find_conflict(
    data: &SharedVoxelData,
    expectations: &Vec<PreparedSharedVoxelDataExpectation>,
    changes: bool,
) -> (r: Option<SharedVoxelDataMutationError>)
    requires
        data.wf(),
        forall|k: int|
            0 <= k < expectations@.len() ==> (
            #[trigger] expectations@[k]).location.lod_index < data@.data.lods.len(),
    ensures
        r == collections::first_some(
            expectations@,
            expectation_conflicts(data@.data, changes),
        ),
{
    let ghost conflict = expectation_conflicts(data@.data, changes);
    let ghost all = expectations@;
    let mut i: usize = 0;
    assert(collections::first_some(all.take(0), conflict) is None);
    while i < expectations.len()
        invariant
            i <= all.len(),
            all == expectations@,
            data.wf(),
            forall|k: int|
                0 <= k < all.len() ==> (
                #[trigger] all[k]).location.lod_index < data@.data.lods.len(),
            conflict == expectation_conflicts(data@.data, changes),
            collections::first_some(all.take(i as int), conflict) is None,
        decreases all.len() - i,
    {
        proof {
            collections::lemma_first_some_take(all, conflict, i as int);
            assert(all[i as int].location.lod_index < data@.data.lods.len());
        }
        let found = check_expectation(data, expectations[i], changes);
        assert(found == conflict(all[i as int]));
        if found.is_some() {
            proof {
                collections::lemma_first_some_prefix(all, conflict, i + 1);
            }
            return found;
        }
        i = i + 1;
    }
    assert(all.take(i as int) =~= all);
    None
}

/// The conflict, if a key is no longer as it was expected to be.
fn check_expectation(
    data: &SharedVoxelData,
    e: PreparedSharedVoxelDataExpectation,
    changes: bool,
) -> (r: Option<SharedVoxelDataMutationError>)
    requires
        data.wf(),
        e.location.lod_index < data@.data.lods.len(),
    ensures
        r == expectation_conflict(data@.data, e, changes),
{
    let position = e.location.position;
    let lod_index: usize = e.location.lod_index as usize;
    let map = data.lod(lod_index);
    let actual_revision = revision::current_key_revision(map, position);
    let conflict = SharedVoxelDataMutationError::ConcurrentDataMutation {
        position,
        lod_index,
        expected_revision: e.expected_revision,
        actual_revision,
    };
    if actual_revision != e.expected_revision {
        return Some(conflict);
    }
    if changes {
        let number: u64 = actual_revision.value();
        if number == u64::MAX {
            return Some(
                SharedVoxelDataMutationError::KeyRevisionOverflow { position, lod_index },
            );
        }
        if number + 1 != e.next_revision {
            return Some(conflict);
        }
    }
    match (e.expected_block_state, map.get_block(position)) {
        (Some(expected), Some(block)) => {
            let actual = transaction::block_state(block);
            if actual != expected {
                return Some(
                    SharedVoxelDataMutationError::PreparedTransactionConcurrentBlockState {
                        location: e.location,
                        expected_viewers: expected.viewers,
                        actual_viewers: actual.viewers,
                        expected_modified: expected.modified,
                        actual_modified: actual.modified,
                        expected_edited: expected.edited,
                        actual_edited: actual.edited,
                        expected_has_voxels: expected.has_voxels,
                        actual_has_voxels: actual.has_voxels,
                    },
                );
            }
            None
        },
        (Some(_), None) => Some(
            SharedVoxelDataMutationError::PreparedTransactionExpectedPresent {
                location: e.location,
                actual_revision,
            },
        ),
        (None, Some(_)) => Some(
            SharedVoxelDataMutationError::PreparedTransactionExpectedTombstone {
                location: e.location,
                actual_revision,
            },
        ),
        (None, None) => None,
    }
}

/// Operations leave all other keys as they are, and the levels their formats.
pub proof fn operations_leave_other_keys(
    lods: Seq<MapModel>,
    ops: Seq<OperationModel>,
    expectations: Seq<PreparedSharedVoxelDataExpectation>,
    n: int,
    place: BlockLocation,
)
    requires
        0 <= n <= ops.len(),
        forall|k: int|
            0 <= k < ops.len() ==> (#[trigger] ops[k]).place().lod_index < lods.len(),
        forall|k: int| 0 <= k < n ==> (#[trigger] ops[k]).place() != place,
        place.lod_index < lods.len(),
    ensures
        ({
            let after = operations_applied(lods, ops, expectations, n);
            let l = place.lod_index as int;
            &&& after.len() == lods.len()
            &&& after[l].blocks.get(place.position) == lods[l].blocks.get(place.position)
            &&& after[l].revision(place.position) == lods[l].revision(place.position)
        }),
    decreases n,
{
    if n > 0 {
        operations_leave_other_keys(lods, ops, expectations, n - 1, place);
        assert(ops[n - 1].place() != place);
    }
}

/// Makes one operation. Returns what is left of it, and the block that it took
/// out.
fn apply_operation(
    data: &mut SharedVoxelData,
    op: SharedVoxelDataTransactionOperation,
    next_revision: u64,
) -> (r: (SharedVoxelDataTransactionOperation, Option<VoxelDataBlock>))
    requires
        old(data).wf(),
        op.wf(),
        op@.payload() matches Some(b) ==> voxel_data_map::block_fits(b),
        old(data)@.has_lod(op@.place().lod_index as int),
        op@ is Insert <==> !old(data)@.data.lods[op@.place().lod_index as int].has(
            op@.place().position,
        ),
    ensures
        final(data).wf(),
        final(data)@ == old(data)@.with_lod(
            op@.place().lod_index as int,
            operation_applied(
                old(data)@.data.lods[op@.place().lod_index as int],
                op@,
                next_revision,
            ),
        ),
        r.0.wf(),
        r.0@ == spent(op@),
        r.1 is Some <==> op@.retires(),
        r.1 matches Some(b) ==> b.wf() && b@
            == old(data)@.data.lods[op@.place().lod_index as int].blocks[op@.place().position],
{
    let location = op.location();
    let p = location.position;
    let ghost m = data@.data.lods[location.lod_index as int];
    let map = data.lod_mut(location.lod_index as usize);
    let r = match op {
        SharedVoxelDataTransactionOperation::SetViewersExact { final_viewers, .. } => {
            match map.get_block_mut(p) {
                Some(block) => block.set_viewers(final_viewers),
                None => {},
            }
            (
                SharedVoxelDataTransactionOperation::SetViewersExact { location, final_viewers },
                None,
            )
        },
        SharedVoxelDataTransactionOperation::SetViewersExactAndClearModified {
            final_viewers,
            ..
        } => {
            match map.get_block_mut(p) {
                Some(block) => {
                    block.set_viewers(final_viewers);
                    block.set_modified(false);
                },
                None => {},
            }
            (
                SharedVoxelDataTransactionOperation::SetViewersExactAndClearModified {
                    location,
                    final_viewers,
                },
                None,
            )
        },
        SharedVoxelDataTransactionOperation::Insert { block, final_viewers, .. } => {
            let mut adopted = block;
            adopted.set_viewers(final_viewers);
            map.set_block(p, adopted, false);
            (
                SharedVoxelDataTransactionOperation::Insert {
                    location,
                    block: VoxelDataBlock::empty(location.lod_index),
                    final_viewers,
                },
                None,
            )
        },
        SharedVoxelDataTransactionOperation::Replace { block, .. } => {
            let retired = map.remove_block(p);
            map.set_block(p, block, true);
            assert(map@.blocks =~= m.with_block(p, block@).blocks);
            (
                SharedVoxelDataTransactionOperation::Replace {
                    location,
                    block: VoxelDataBlock::empty(location.lod_index),
                },
                retired,
            )
        },
        SharedVoxelDataTransactionOperation::ClearModified { .. } => {
            match map.get_block_mut(p) {
                Some(block) => block.set_modified(false),
                None => {},
            }
            (SharedVoxelDataTransactionOperation::ClearModified { location }, None)
        },
        SharedVoxelDataTransactionOperation::Remove { .. } => {
            let retired = map.remove_block(p);
            (SharedVoxelDataTransactionOperation::Remove { location }, retired)
        },
    };
    map.commit_key_revision(p, next_revision);
    r
}

impl PreparedSharedVoxelDataTransaction {
    /// Why the transaction cannot be committed.
    fn refuse(
        &self,
        data: &SharedVoxelData,
        failed: Option<SharedVoxelDataTransactionReservation>,
    ) -> (r: Option<SharedVoxelDataMutationError>)
        requires
            self.wf(),
            data.wf(),
            prepared_for(self@, data@),
        ensures
            r == commit_refusal(data@, self@, failed),
    {
        let ghost t = self@;
        proof {
            assert forall|k: int| 0 <= k < self.expectations@.len() implies (
            #[trigger] self.expectations@[k]).location.lod_index < data@.data.lods.len() by {
                assert(expects(t.operations[k], t.expectations[k], t.lod_count));
            }
            assert forall|k: int| 0 <= k < self.observations@.len() implies (
            #[trigger] self.observations@[k]).location.lod_index < data@.data.lods.len() by {
                assert((t.observations[k].location.lod_index as nat) < t.lod_count);
            }
        }
        if self.committed {
            return Some(SharedVoxelDataMutationError::PreparedTransactionAlreadyCommitted);
        }
        if data.is_mutation_admission_closed() && self.operations.len() > 0 {
            match &self.shutdown_mutation_lineage {
                Some(lineage) => {
                    if !lineage.same_as(data.lineage()) {
                        return Some(SharedVoxelDataMutationError::ShutdownMutationPermitMismatch);
                    }
                },
                None => {
                    return Some(SharedVoxelDataMutationError::MutationAdmissionClosed);
                },
            }
        }
        let actual_revision: u64 = data.settings_revision();
        if actual_revision != self.expected_settings_revision {
            return Some(
                SharedVoxelDataMutationError::ConcurrentSettingsMutation {
                    expected_revision: self.expected_settings_revision,
                    actual_revision,
                },
            );
        }
        if failed == Some(SharedVoxelDataTransactionReservation::LiveSpatialRegistry) && (
        self.operations.len() > 0 || self.observations.len() > 0) {
            return Some(out_of_room(SharedVoxelDataTransactionReservation::LiveSpatialRegistry));
        }
        let observed = find_conflict(data, &self.observations, false);
        if observed.is_some() {
            return observed;
        }
        let expected = find_conflict(data, &self.expectations, true);
        if expected.is_some() {
            return expected;
        }
        if failed == Some(SharedVoxelDataTransactionReservation::RemovedOutcome)
            && self.retires_blocks() {
            return Some(out_of_room(SharedVoxelDataTransactionReservation::RemovedOutcome));
        }
        if failed == Some(SharedVoxelDataTransactionReservation::LiveMap)
            && self.inserts_blocks() {
            return Some(out_of_room(SharedVoxelDataTransactionReservation::LiveMap));
        }
        if failed == Some(SharedVoxelDataTransactionReservation::LiveKeyRevisions)
            && self.operations.len() > 0 {
            return Some(out_of_room(SharedVoxelDataTransactionReservation::LiveKeyRevisions));
        }
        None
    }

    /// An operation takes a block out.
    fn retires_blocks(&self) -> (b: bool)
        ensures
            b == self@.retires(),
    {
        let mut i: usize = 0;
        while i < self.operations.len()
            invariant
                i <= self.operations@.len(),
                forall|k: int| 0 <= k < i ==> !(#[trigger] self@.operations[k]).retires(),
            decreases self.operations@.len() - i,
        {
            assert(self@.operations[i as int] == self.operations@[i as int]@);
            match &self.operations[i] {
                SharedVoxelDataTransactionOperation::Replace { .. } => {
                    return true;
                },
                SharedVoxelDataTransactionOperation::Remove { .. } => {
                    return true;
                },
                _ => {},
            }
            i = i + 1;
        }
        false
    }

    /// An operation puts a block in.
    fn inserts_blocks(&self) -> (b: bool)
        ensures
            b == self@.inserts(),
    {
        let mut i: usize = 0;
        while i < self.operations.len()
            invariant
                i <= self.operations@.len(),
                forall|k: int| 0 <= k < i ==> !(#[trigger] self@.operations[k] is Insert),
            decreases self.operations@.len() - i,
        {
            assert(self@.operations[i as int] == self.operations@[i as int]@);
            match &self.operations[i] {
                SharedVoxelDataTransactionOperation::Insert { .. } => {
                    return true;
                },
                _ => {},
            }
            i = i + 1;
        }
        false
    }

    /// Makes all operations, once nothing speaks against them. Returns the
    /// blocks that were taken out.
    fn apply(&mut self, data: &mut SharedVoxelData) -> (removed: Vec<RemovedSharedVoxelDataBlock>)
        requires
            old(self).wf(),
            old(data).wf(),
            prepared_for(old(self)@, old(data)@),
            commit_refusal(old(data)@, old(self)@, None) is None,
        ensures
            final(self).wf(),
            final(data).wf(),
            removed_wf(removed@),
            removed_of(removed@) == operations_removed(
                old(data)@.data.lods,
                old(self)@.operations,
                old(self)@.operations.len() as int,
            ),
            final(data)@ == old(data)@.with_lods(
                operations_applied(
                    old(data)@.data.lods,
                    old(self)@.operations,
                    old(self)@.expectations,
                    old(self)@.operations.len() as int,
                ),
            ),
            final(self)@ == (TransactionModel {
                operations: old(self)@.operations.map_values(|op: OperationModel| spent(op)),
                committed: true,
                ..old(self)@
            }),
    {
        let ghost t = self@;
        let ghost before = data@;
        let ghost lods = before.data.lods;
        let ghost ops = t.operations;
        let ghost conflict = expectation_conflicts(before.data, true);
        proof {
            collections::lemma_first_some_facts(t.expectations, conflict);
            assert(before.with_lods(lods) == before);
        }
        let n: usize = self.operations.len();
        let mut removed: Vec<RemovedSharedVoxelDataBlock> = Vec::new();
        std::mem::swap(&mut removed, &mut self.removed_blocks);
        let mut i: usize = 0;
        assert(removed_of(removed@) =~= Seq::empty());
        while i < n
            invariant
                i <= n,
                n == ops.len(),
                ops == t.operations,
                t.wf(),
                lods == before.data.lods,
                t.lod_count == lods.len(),
                data.wf(),
                conflict == expectation_conflicts(before.data, true),
                forall|k: int|
                    0 <= k < t.expectations.len() ==> conflict(#[trigger] t.expectations[k]) is None,
                self.lineage == t.lineage,
                self.lod_count == t.lod_count,
                self.expected_settings_revision == t.settings_revision,
                self.expectations@ == t.expectations,
                self.observations@ == t.observations,
                self.shutdown_mutation_lineage == t.permit,
                self.removed_blocks@ == Seq::<RemovedSharedVoxelDataBlock>::empty(),
                self.operations@.len() == n,
                operations_wf(self.operations@),
                forall|k: int| 0 <= k < i ==> (#[trigger] self.operations@[k])@ == spent(ops[k]),
                forall|k: int| i <= k < n ==> (#[trigger] self.operations@[k])@ == ops[k],
                data@ == before.with_lods(
                    operations_applied(lods, ops, t.expectations, i as int),
                ),
                removed_wf(removed@),
                removed_of(removed@) == operations_removed(lods, ops, i as int),
            decreases n - i,
        {
            let expectation = self.expectations[i];
            let ghost op = ops[i as int];
            let ghost place = op.place();
            let ghost listed = removed@;
            proof {
                assert(expects(ops[i as int], t.expectations[i as int], t.lod_count));
                assert(conflict(t.expectations[i as int]) is None);
                assert forall|k: int| 0 <= k < ops.len() implies (
                #[trigger] ops[k]).place().lod_index < lods.len() by {
                    assert(expects(ops[k], t.expectations[k], t.lod_count));
                }
                operations_leave_other_keys(lods, ops, t.expectations, i as int, place);
                assert(self.operations@[i as int].wf());
                assert(self.operations@[i as int]@ == ops[i as int]);
                let m = data@.data.lods[place.lod_index as int];
                assert(m.has(place.position) == (m.blocks.get(place.position) is Some));
            }
            let mut taken = SharedVoxelDataTransactionOperation::Remove {
                location: expectation.location,
            };
            std::mem::swap(&mut taken, &mut self.operations[i]);
            let (left, retired) = apply_operation(data, taken, expectation.next_revision);
            self.operations[i] = left;
            match retired {
                Some(block) => {
                    removed.push(
                        RemovedSharedVoxelDataBlock {
                            location: expectation.location,
                            block,
                            block_revision: expectation.expected_revision.value(),
                        },
                    );
                    proof {
                        assert(removed_of(removed@) =~= removed_of(listed).push(
                            removed@[listed.len() as int]@,
                        ));
                    }
                },
                None => {},
            }
            i = i + 1;
        }
        self.committed = true;
        proof {
            assert(self@.operations =~= ops.map_values(|op: OperationModel| spent(op)));
            assert forall|k: int| 0 <= k < self@.operations.len() implies expects(
                #[trigger] self@.operations[k],
                self@.expectations[k],
                self@.lod_count,
            ) by {
                assert(expects(ops[k], t.expectations[k], t.lod_count));
                assert(self@.operations[k] == spent(ops[k]));
            }
            assert forall|a: int, b: int| 0 <= a < b < self@.operations.len() implies (
            #[trigger] self@.operations[a]).place() != (#[trigger] self@.operations[b]).place() by {
                assert(self@.operations[a] == spent(ops[a]));
                assert(self@.operations[b] == spent(ops[b]));
                assert(ops[a].place() != ops[b].place());
            }
        }
        removed
    }
}

/// Memory could not be reserved.
fn out_of_room(reservation: SharedVoxelDataTransactionReservation) -> (
    e: SharedVoxelDataMutationError)
    ensures
        e == no_room(reservation),
{
    SharedVoxelDataMutationError::PreparedTransactionCapacityReservationFailed { reservation }
}

/// A committed transaction whose data nobody else can use yet: it stays
/// exclusively borrowed until this value is finished or dropped.
pub struct CommittedSharedVoxelDataTransaction<'a> {
    pub data: &'a mut SharedVoxelData,
    pub removed_blocks: Vec<RemovedSharedVoxelDataBlock>,
}

impl<'a> CommittedSharedVoxelDataTransaction<'a> {
    /// The data after the commit.
    pub fn data(&self) -> (d: &SharedVoxelData)
        ensures
            *d == *old(self.data),
    {
        &*self.data
    }

    /// The blocks that were taken out.
    pub fn removed_blocks(&self) -> (v: &Vec<RemovedSharedVoxelDataBlock>)
        ensures
            *v == self.removed_blocks,
    {
        &self.removed_blocks
    }

    /// Hands out the blocks that were taken out.
    pub fn take_removed_blocks(&mut self) -> (v: Vec<RemovedSharedVoxelDataBlock>)
        ensures
            v == old(self).removed_blocks,
            final(self).removed_blocks@ == Seq::<RemovedSharedVoxelDataBlock>::empty(),
            final(self).data == old(self).data,
    {
        let mut v: Vec<RemovedSharedVoxelDataBlock> = Vec::new();
        std::mem::swap(&mut v, &mut self.removed_blocks);
        v
    }

    /// Lets go of the data. Returns the blocks that were taken out and not yet
    /// handed out.
    pub fn finish(self) -> (outcome: PreparedSharedVoxelDataTransactionOutcome)
        ensures
            outcome@ == removed_of(self.removed_blocks@),
            removed_wf(self.removed_blocks@) ==> outcome.wf(),
            *final(self.data) == *old(self.data),
    {
        PreparedSharedVoxelDataTransactionOutcome { removed_blocks: self.removed_blocks }
    }
}

/// The outcome of a commit, by what it holds.
pub open spec fn outcome_view(
    r: Result<PreparedSharedVoxelDataTransactionOutcome, SharedVoxelDataMutationError>,
) -> Result<Seq<RemovedModel>, SharedVoxelDataMutationError> {
    match r {
        Ok(o) => Ok(o@),
        Err(e) => Err(e),
    }
}

impl PreparedSharedVoxelDataTransaction {
    /// The data that the transaction is for.
    pub fn lineage(&self) -> (l: &DataLineage)
        ensures
            *l == self@.lineage,
    {
        &self.lineage
    }

    /// Permits the commit though changes of the data are no longer admitted.
    pub fn authorize_shutdown_mutation(
        &mut self,
        permit: &SharedVoxelDataShutdownMutationPermit,
    ) -> (r: Result<(), SharedVoxelDataMutationError>)
        requires
            old(self).wf(),
        ensures
            final(self).wf(),
            final(self).operations() == old(self).operations(),
            if permit@ == old(self)@.lineage {
                r is Ok && final(self)@ == (TransactionModel {
                    permit: Some(permit@),
                    ..old(self)@
                })
            } else {
                r == Err::<(), _>(SharedVoxelDataMutationError::ShutdownMutationPermitMismatch)
                    && final(self)@ == old(self)@
            },
    {
        if !permit.matches(&self.lineage) {
            return Err(SharedVoxelDataMutationError::ShutdownMutationPermitMismatch);
        }
        self.shutdown_mutation_lineage = Some(self.lineage.clone());
        Ok(())
    }

    /// The transaction was prepared for this data.
    pub fn is_prepared_for(&self, data: &SharedVoxelData) -> (b: bool)
        ensures
            b == prepared_for(self@, data@),
    {
        self.lineage.same_as(data.lineage()) && self.lod_count == data.lod_count()
    }

    /// The block that an insertion at `location` brings along.
    pub fn inserted_block(&self, location: BlockLocation) -> (r: Option<&VoxelDataBlock>)
        requires
            self.wf(),
        ensures
            match r {
                Some(b) => b.wf() && exists|k: int|
                    0 <= k < self@.operations.len() && #[trigger] self@.operations[k] is Insert
                        && self@.operations[k].place() == location
                        && self@.operations[k].payload() == Some(b@),
                None => forall|k: int|
                    0 <= k < self@.operations.len() && #[trigger] self@.operations[k] is Insert
                        ==> self@.operations[k].place() != location,
            },
    {
        let mut i: usize = 0;
        while i < self.operations.len()
            invariant
                i <= self.operations@.len(),
                self.wf(),
                forall|k: int|
                    0 <= k < i && #[trigger] self@.operations[k] is Insert
                        ==> self@.operations[k].place() != location,
            decreases self.operations@.len() - i,
        {
            proof {
                assert(self@.operations[i as int] == self.operations@[i as int]@);
                assert(self.operations@[i as int].wf());
            }
            match &self.operations[i] {
                SharedVoxelDataTransactionOperation::Insert { location: here, block, .. } => {
                    if *here == location {
                        return Some(block);
                    }
                },
                _ => {},
            }
            i = i + 1;
        }
        None
    }

    /// The block that an operation at `location` brings along.
    pub fn owned_block(&self, location: BlockLocation) -> (r: Option<&VoxelDataBlock>)
        requires
            self.wf(),
        ensures
            match r {
                Some(b) => b.wf() && exists|k: int|
                    0 <= k < self@.operations.len() && (#[trigger] self@.operations[k]).place()
                        == location && self@.operations[k].payload() == Some(b@),
                None => forall|k: int|
                    0 <= k < self@.operations.len() && (
                    #[trigger] self@.operations[k]).payload() is Some
                        ==> self@.operations[k].place() != location,
            },
    {
        let mut i: usize = 0;
        while i < self.operations.len()
            invariant
                i <= self.operations@.len(),
                self.wf(),
                forall|k: int|
                    0 <= k < i && (#[trigger] self@.operations[k]).payload() is Some
                        ==> self@.operations[k].place() != location,
            decreases self.operations@.len() - i,
        {
            proof {
                assert(self@.operations[i as int] == self.operations@[i as int]@);
                assert(self.operations@[i as int].wf());
            }
            if self.operations[i].location() == location {
                match self.operations[i].block() {
                    Some(block) => {
                        return Some(block);
                    },
                    None => {},
                }
            }
            i = i + 1;
        }
        None
    }

    /// The voxels of each level that the commit writes or relies on.
    pub fn write_regions(&self) -> (r: Vec<(usize, BoxBounds3i)>)
        ensures
            r@ == (self@.expectations + self@.observations).map_values(
                |e: PreparedSharedVoxelDataExpectation| (e.location.lod_index as usize, e.bounds),
            ),
    {
        let ghost region = |e: PreparedSharedVoxelDataExpectation|
            (e.location.lod_index as usize, e.bounds);
        let ghost all = self@.expectations + self@.observations;
        let mut r: Vec<(usize, BoxBounds3i)> = Vec::new();
        let mut i: usize = 0;
        assert(r@ =~= all.take(0).map_values(region));
        while i < self.expectations.len()
            invariant
                i <= self.expectations@.len(),
                all == self@.expectations + self@.observations,
                region == (|e: PreparedSharedVoxelDataExpectation|
                    (e.location.lod_index as usize, e.bounds)),
                r@ == all.take(i as int).map_values(region),
            decreases self.expectations@.len() - i,
        {
            let e = self.expectations[i];
            r.push((e.location.lod_index as usize, e.bounds));
            assert(all[i as int] == e);
            assert(r@ =~= all.take(i + 1).map_values(region));
            i = i + 1;
        }
        let ghost k = i;
        let mut i: usize = 0;
        while i < self.observations.len()
            invariant
                i <= self.observations@.len(),
                k == self.expectations@.len(),
                all == self@.expectations + self@.observations,
                region == (|e: PreparedSharedVoxelDataExpectation|
                    (e.location.lod_index as usize, e.bounds)),
                r@ == all.take(k + i).map_values(region),
            decreases self.observations@.len() - i,
        {
            let e = self.observations[i];
            r.push((e.location.lod_index as usize, e.bounds));
            assert(all[k + i] == e);
            assert(r@ =~= all.take(k + i + 1).map_values(region));
            i = i + 1;
        }
        assert(all.take(k + i) =~= all);
        r
    }

    /// The operations, to be prepared again, unless they have been committed.
    pub fn into_operations(self) -> (r: Result<
        Vec<SharedVoxelDataTransactionOperation>,
        SharedVoxelDataMutationError,
    >)
        requires
            self.wf(),
        ensures
            match r {
                Ok(ops) => !self@.committed && ops@ == self.operations() && operations_wf(ops@),
                Err(e) => self@.committed && e
                    == SharedVoxelDataMutationError::PreparedTransactionAlreadyCommitted,
            },
    {
        if self.committed {
            return Err(SharedVoxelDataMutationError::PreparedTransactionAlreadyCommitted);
        }
        Ok(self.operations)
    }

    /// `commit_holding_publication_fence`, where `failed` is the reservation
    /// that fails.
    pub fn commit_reserved<'a>(
        &mut self,
        data: &'a mut SharedVoxelData,
        failed: Option<SharedVoxelDataTransactionReservation>,
    ) -> (r: Result<CommittedSharedVoxelDataTransaction<'a>, SharedVoxelDataMutationError>)
        requires
            old(self).wf(),
            old(data).wf(),
            prepared_for(old(self)@, old(data)@),
        ensures
            final(self).wf(),
            match r {
                Ok(c) => {
                    &&& c.data.wf()
                    &&& removed_wf(c.removed_blocks@)
                    &&& *final(c.data) == *final(data)
                    &&& commit_outcome(
                        old(data)@,
                        old(self)@,
                        failed,
                        Ok(removed_of(c.removed_blocks@)),
                        c.data@,
                        final(self)@,
                    )
                },
                Err(e) => {
                    &&& final(data).wf()
                    &&& commit_outcome(
                        old(data)@,
                        old(self)@,
                        failed,
                        Err(e),
                        final(data)@,
                        final(self)@,
                    )
                    &&& final(self).operations() == old(self).operations()
                },
            },
    {
        match self.refuse(&*data, failed) {
            Some(e) => {
                return Err(e);
            },
            None => {},
        }
        let removed_blocks = self.apply(data);
        Ok(CommittedSharedVoxelDataTransaction { data, removed_blocks })
    }

    /// Commits the transaction, all of it or nothing, and keeps the data from
    /// all other users until the result is finished or dropped. Where the
    /// commit is refused, data and transaction stay as they were.
    pub fn commit_holding_publication_fence<'a>(
        &mut self,
        data: &'a mut SharedVoxelData,
    ) -> (r: Result<CommittedSharedVoxelDataTransaction<'a>, SharedVoxelDataMutationError>)
        requires
            old(self).wf(),
            old(data).wf(),
            prepared_for(old(self)@, old(data)@),
        ensures
            final(self).wf(),
            match r {
                Ok(c) => {
                    &&& c.data.wf()
                    &&& removed_wf(c.removed_blocks@)
                    &&& *final(c.data) == *final(data)
                    &&& exists|failed: Option<SharedVoxelDataTransactionReservation>| #[trigger]
                        commit_outcome(
                            old(data)@,
                            old(self)@,
                            failed,
                            Ok(removed_of(c.removed_blocks@)),
                            c.data@,
                            final(self)@,
                        ) && (failed matches Some(x) ==> needed_by_commit(old(self)@, x))
                },
                Err(e) => {
                    &&& final(data).wf()
                    &&& exists|failed: Option<SharedVoxelDataTransactionReservation>| #[trigger]
                        commit_outcome(
                            old(data)@,
                            old(self)@,
                            failed,
                            Err(e),
                            final(data)@,
                            final(self)@,
                        ) && (failed matches Some(x) ==> needed_by_commit(old(self)@, x))
                    &&& final(self).operations() == old(self).operations()
                },
            },
    {
        let failed = self.try_reserve(data);
        self.commit_reserved(data, failed)
    }

    /// Commits the transaction, all of it or nothing. Returns the blocks that
    /// were taken out.
    pub fn commit(&mut self, data: &mut SharedVoxelData) -> (r: Result<
        PreparedSharedVoxelDataTransactionOutcome,
        SharedVoxelDataMutationError,
    >)
        requires
            old(self).wf(),
            old(data).wf(),
            prepared_for(old(self)@, old(data)@),
        ensures
            final(self).wf(),
            final(data).wf(),
            r matches Ok(o) ==> o.wf(),
            r is Err ==> final(self).operations() == old(self).operations(),
            exists|failed: Option<SharedVoxelDataTransactionReservation>| #[trigger]
                commit_outcome(
                    old(data)@,
                    old(self)@,
                    failed,
                    outcome_view(r),
                    final(data)@,
                    final(self)@,
                ) && (failed matches Some(x) ==> needed_by_commit(old(self)@, x)),
    {
        match self.commit_holding_publication_fence(data) {
            Ok(committed) => Ok(committed.finish()),
            Err(e) => Err(e),
        }
    }

    /// Asks for room for the commit, for the blocks of all levels before the
    /// revisions of any. Returns the reservation that failed: one that some
    /// operation needs.
    fn try_reserve(&self, data: &mut SharedVoxelData) -> (failed: Option<
        SharedVoxelDataTransactionReservation,
    >)
        requires
            self.wf(),
            old(data).wf(),
        ensures
            final(data).wf(),
            final(data)@ == old(data)@,
            failed matches Some(r) ==> needed_by_commit(self@, r),
    {
        let mut failed: Option<SharedVoxelDataTransactionReservation> = None;
        let n: usize = data.lod_count();
        let mut l: usize = 0;
        while l < n
            invariant
                n == old(data)@.data.lods.len(),
                self.wf(),
                data.wf(),
                data@ == old(data)@,
                failed matches Some(r) ==> needed_by_commit(self@, r),
            decreases n - l,
        {
            let (insertions, _) = self.count_operations(l);
            proof {
                lemma_counted(
                    self@.operations,
                    |op: OperationModel| op.place().lod_index == l && op is Insert,
                );
            }
            if failed.is_none() && !data.try_reserve(l, insertions, 0) {
                failed = Some(SharedVoxelDataTransactionReservation::LiveMap);
            }
            l = l + 1;
        }
        l = 0;
        while l < n
            invariant
                n == old(data)@.data.lods.len(),
                self.wf(),
                data.wf(),
                data@ == old(data)@,
                failed matches Some(r) ==> needed_by_commit(self@, r),
            decreases n - l,
        {
            let (_, revisions) = self.count_operations(l);
            proof {
                lemma_counted(
                    self@.operations,
                    |op: OperationModel| op.place().lod_index == l,
                );
            }
            if failed.is_none() && !data.try_reserve(l, 0, revisions) {
                failed = Some(SharedVoxelDataTransactionReservation::LiveKeyRevisions);
            }
            l = l + 1;
        }
        failed
    }

    /// Number of insertions and of all operations at a level.
    fn count_operations(&self, l: usize) -> (r: (usize, usize))
        requires
            self.wf(),
        ensures
            r.0 == self@.operations.filter(
                |op: OperationModel| op.place().lod_index == l && op is Insert,
            ).len(),
            r.1 == self@.operations.filter(|op: OperationModel| op.place().lod_index == l).len(),
    {
        let ghost ops = self@.operations;
        let ghost here = |op: OperationModel| op.place().lod_index == l;
        let ghost inserted = |op: OperationModel| op.place().lod_index == l && op is Insert;
        let mut insertions: usize = 0;
        let mut all: usize = 0;
        let mut i: usize = 0;
        proof {
            self.lemma_operations();
            collections::lemma_filter_none(ops, here);
            collections::lemma_filter_none(ops, inserted);
        }
        while i < self.operations.len()
            invariant
                i <= self.operations@.len(),
                insertions <= i,
                all <= i,
                self.wf(),
                ops == self@.operations,
                ops == operations_of(self.operations@),
                here == (|op: OperationModel| op.place().lod_index == l),
                inserted == (|op: OperationModel| op.place().lod_index == l && op is Insert),
                all == ops.take(i as int).filter(here).len(),
                insertions == ops.take(i as int).filter(inserted).len(),
            decreases self.operations@.len() - i,
        {
            proof {
                collections::lemma_filter_take(ops, here, i as int);
                collections::lemma_filter_take(ops, inserted, i as int);
                assert(ops[i as int] == self.operations@[i as int]@);
            }
            if self.operations[i].location().lod_index as usize == l {
                all = all + 1;
                match &self.operations[i] {
                    SharedVoxelDataTransactionOperation::Insert { .. } => {
                        insertions = insertions + 1;
                    },
                    _ => {},
                }
            }
            i = i + 1;
        }
        assert(ops.take(i as int) =~= ops);
        (insertions, all)
    }
}

impl PreparedSharedVoxelDataTransaction {
    /// The operations.
    pub(crate) fn operation_list(&self) -> (ops: &Vec<SharedVoxelDataTransactionOperation>)
        ensures
            ops@ == self.operations(),
    {
        &self.operations
    }

    /// The operations alone.
    pub(crate) fn into_uncommitted_operations(self) -> (ops: Vec<
        SharedVoxelDataTransactionOperation,
    >)
        requires
            self.wf(),
        ensures
            ops@ == self.operations(),
            operations_wf(ops@),
    {
        self.operations
    }

    /// The transaction with keys that have to be as they were.
    pub(crate) fn with_observations(
        self,
        observations: Vec<PreparedSharedVoxelDataExpectation>,
    ) -> (t: PreparedSharedVoxelDataTransaction)
        requires
            self.wf(),
            forall|k: int|
                0 <= k < observations@.len() ==> ((
                #[trigger] observations@[k]).location.lod_index as nat) < self@.lod_count,
        ensures
            t.wf(),
            t.operations() == self.operations(),
            t@ == (TransactionModel { observations: observations@, ..self@ }),
    {
        PreparedSharedVoxelDataTransaction { observations, ..self }
    }

    /// Sets the number of viewers that an inserted block gets. Returns whether
    /// there is such an insertion.
    pub(crate) fn set_insert_final_viewers(
        &mut self,
        location: BlockLocation,
        final_viewers: u32,
    ) -> (found: bool)
        requires
            old(self).wf(),
        ensures
            final(self).wf(),
            final(self)@ == (TransactionModel {
                operations: old(self)@.operations.map_values(
                    |op: OperationModel| viewers_set(op, location, final_viewers),
                ),
                ..old(self)@
            }),
            found == exists|k: int|
                0 <= k < old(self)@.operations.len() && #[trigger] old(self)@.operations[k] is Insert
                    && old(self)@.operations[k].place() == location,
    {
        let ghost t = self@;
        let ghost ops = t.operations;
        let n: usize = self.operations.len();
        let mut i: usize = 0;
        while i < n
            invariant
                i <= n,
                *self == *old(self),
                t == self@,
                ops == t.operations,
                n == self.operations@.len(),
                self.wf(),
                forall|k: int|
                    0 <= k < i ==> !(#[trigger] ops[k] is Insert && ops[k].place() == location),
            decreases n - i,
        {
            proof {
                assert(ops[i as int] == self.operations@[i as int]@);
                assert(self.operations@[i as int].wf());
            }
            let here = self.operations[i].location();
            let inserts = match &self.operations[i] {
                SharedVoxelDataTransactionOperation::Insert { .. } => true,
                _ => false,
            };
            if inserts && here == location {
                let mut taken = SharedVoxelDataTransactionOperation::Remove { location };
                std::mem::swap(&mut taken, &mut self.operations[i]);
                match taken {
                    SharedVoxelDataTransactionOperation::Insert { block, .. } => {
                        self.operations[i] = SharedVoxelDataTransactionOperation::Insert {
                            location,
                            block,
                            final_viewers,
                        };
                    },
                    _ => {
                        assert(false);
                    },
                }
                proof {
                    let set = |op: OperationModel| viewers_set(op, location, final_viewers);
                    let after = self@.operations;
                    assert forall|k: int| 0 <= k < ops.len() implies #[trigger] after[k] == set(
                        ops[k],
                    ) by {
                        assert(after[k] == self.operations@[k]@);
                        if k != i {
                            if k < i {
                                assert(ops[k].place() != ops[i as int].place());
                            } else {
                                assert(ops[i as int].place() != ops[k].place());
                            }
                        }
                    }
                    assert(after =~= ops.map_values(set));
                    assert forall|k: int| 0 <= k < after.len() implies expects(
                        #[trigger] after[k],
                        self@.expectations[k],
                        self@.lod_count,
                    ) by {
                        assert(expects(ops[k], t.expectations[k], t.lod_count));
                    }
                    assert forall|a: int, b: int| 0 <= a < b < after.len() implies (
                    #[trigger] after[a]).place() != (#[trigger] after[b]).place() by {
                        assert(ops[a].place() != ops[b].place());
                    }
                }
                return true;
            }
            i = i + 1;
        }
        proof {
            let set = |op: OperationModel| viewers_set(op, location, final_viewers);
            assert(ops.map_values(set) =~= ops);
        }
        false
    }
}

/// An insertion at `location` with another number of viewers.
pub open spec fn viewers_set(op: OperationModel, location: BlockLocation, viewers: u32) ->
    OperationModel {
    match op {
        OperationModel::Insert { location: here, block, .. } => if here == location {
            OperationModel::Insert { location: here, block, final_viewers: viewers }
        } else {
            op
        },
        _ => op,
    }
}

} // verus!
