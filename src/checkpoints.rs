//! Stage and prune checkpoints, prune settings and the chain parameters that
//! the provider reads.
use crate::primitives::{U256};
use crate::table::{TableKey, TableValue};
use vstd::prelude::*;

verus! {

/// The stages of the sync pipeline.
#[derive(Clone, Copy, Debug, PartialEq, Eq, Structural, Hash)]
pub enum StageId {
    Headers,
    Bodies,
    SenderRecovery,
    Execution,
    AccountHashing,
    StorageHashing,
    MerkleExecute,
    MerkleUnwind,
    TransactionLookup,
    IndexAccountHistory,
    IndexStorageHistory,
    Finish,
}

impl StageId {
    pub open spec fn index_spec(&self) -> int {
        match self {
            StageId::Headers => 0,
            StageId::Bodies => 1,
            StageId::SenderRecovery => 2,
            StageId::Execution => 3,
            StageId::AccountHashing => 4,
            StageId::StorageHashing => 5,
            StageId::MerkleExecute => 6,
            StageId::MerkleUnwind => 7,
            StageId::TransactionLookup => 8,
            StageId::IndexAccountHistory => 9,
            StageId::IndexStorageHistory => 10,
            StageId::Finish => 11,
        }
    }

    pub fn index(&self) -> (r: u8)
        ensures
            r == self.index_spec(),
    {
        match self {
            StageId::Headers => 0,
            StageId::Bodies => 1,
            StageId::SenderRecovery => 2,
            StageId::Execution => 3,
            StageId::AccountHashing => 4,
            StageId::StorageHashing => 5,
            StageId::MerkleExecute => 6,
            StageId::MerkleUnwind => 7,
            StageId::TransactionLookup => 8,
            StageId::IndexAccountHistory => 9,
            StageId::IndexStorageHistory => 10,
            StageId::Finish => 11,
        }
    }

    /// The stage's stable name.
    pub fn as_str(&self) -> &'static str {
        match self {
            StageId::Headers => "Headers",
            StageId::Bodies => "Bodies",
            StageId::SenderRecovery => "SenderRecovery",
            StageId::Execution => "Execution",
            StageId::AccountHashing => "AccountHashing",
            StageId::StorageHashing => "StorageHashing",
            StageId::MerkleExecute => "MerkleExecute",
            StageId::MerkleUnwind => "MerkleUnwind",
            StageId::TransactionLookup => "TransactionLookup",
            StageId::IndexAccountHistory => "IndexAccountHistory",
            StageId::IndexStorageHistory => "IndexStorageHistory",
            StageId::Finish => "Finish",
        }
    }
}

pub open spec fn all_stage_ids_spec() -> Seq<StageId> {
    seq![
        StageId::Headers,
        StageId::Bodies,
        StageId::SenderRecovery,
        StageId::Execution,
        StageId::AccountHashing,
        StageId::StorageHashing,
        StageId::MerkleExecute,
        StageId::MerkleUnwind,
        StageId::TransactionLookup,
        StageId::IndexAccountHistory,
        StageId::IndexStorageHistory,
        StageId::Finish,
    ]
}

/// Every stage, in pipeline order.
pub fn all_stage_ids() -> (r: Vec<StageId>)
    ensures
        r@ == all_stage_ids_spec(),
{
    let r = vec![
        StageId::Headers,
        StageId::Bodies,
        StageId::SenderRecovery,
        StageId::Execution,
        StageId::AccountHashing,
        StageId::StorageHashing,
        StageId::MerkleExecute,
        StageId::MerkleUnwind,
        StageId::TransactionLookup,
        StageId::IndexAccountHistory,
        StageId::IndexStorageHistory,
        StageId::Finish,
    ];
    proof {
        assert(r@ =~= all_stage_ids_spec());
    }
    r
}

impl TableKey for StageId {
    open spec fn rank(&self) -> int {
        self.index_spec()
    }

    proof fn lemma_rank_injective(a: Self, b: Self) {
    }

    fn key_lt(&self, other: &Self) -> (r: bool) {
        self.index() < other.index()
    }

    fn key_eq(&self, other: &Self) -> (r: bool) {
        self.index() == other.index()
    }
}

/// How far a stage has come: the block it reached, and its progress inside
/// the next unit of work, if it records any.
#[derive(Clone, Copy, Debug, PartialEq, Eq, Structural)]
pub struct StageCheckpoint {
    pub block_number: u64,
    pub unit_progress: Option<u64>,
}

impl TableValue for StageCheckpoint {
    type Image = StageCheckpoint;

    open spec fn image(&self) -> StageCheckpoint {
        *self
    }

    fn duplicate(&self) -> (r: Self) {
        *self
    }
}

/// The kinds of data that the pruner removes.
#[derive(Clone, Copy, Debug, PartialEq, Eq, Structural, Hash)]
pub enum PruneSegment {
    SenderRecovery,
    TransactionLookup,
    Receipts,
    ContractLogs,
    AccountHistory,
    StorageHistory,
    Headers,
}

impl PruneSegment {
    pub open spec fn index_spec(&self) -> int {
        match self {
            PruneSegment::SenderRecovery => 0,
            PruneSegment::TransactionLookup => 1,
            PruneSegment::Receipts => 2,
            PruneSegment::ContractLogs => 3,
            PruneSegment::AccountHistory => 4,
            PruneSegment::StorageHistory => 5,
            PruneSegment::Headers => 6,
        }
    }

    pub fn index(&self) -> (r: u8)
        ensures
            r == self.index_spec(),
    {
        match self {
            PruneSegment::SenderRecovery => 0,
            PruneSegment::TransactionLookup => 1,
            PruneSegment::Receipts => 2,
            PruneSegment::ContractLogs => 3,
            PruneSegment::AccountHistory => 4,
            PruneSegment::StorageHistory => 5,
            PruneSegment::Headers => 6,
        }
    }
}

impl TableKey for PruneSegment {
    open spec fn rank(&self) -> int {
        self.index_spec()
    }

    proof fn lemma_rank_injective(a: Self, b: Self) {
    }

    fn key_lt(&self, other: &Self) -> (r: bool) {
        self.index() < other.index()
    }

    fn key_eq(&self, other: &Self) -> (r: bool) {
        self.index() == other.index()
    }
}

/// How much of a segment to prune.
#[derive(Clone, Copy, Debug, PartialEq, Eq, Structural)]
pub enum PruneMode {
    /// Prune everything.
    Full,
    /// Keep the given number of most recent blocks.
    Distance(u64),
    /// Prune the blocks before the given one.
    Before(u64),
}

impl PruneMode {
    pub fn is_full(&self) -> (r: bool)
        ensures
            r == (*self == PruneMode::Full),
    {
        match self {
            PruneMode::Full => true,
            _ => false,
        }
    }
}

/// The prune settings that block insertion reads.
#[derive(Clone, Copy, Debug, PartialEq, Eq, Structural)]
pub struct PruneModes {
    pub sender_recovery: Option<PruneMode>,
    pub transaction_lookup: Option<PruneMode>,
}

/// Whether a prune setting, if given, prunes everything.
pub open spec fn prunes_fully(mode: Option<PruneMode>) -> bool {
    mode == Some(PruneMode::Full)
}

pub fn mode_is_full(mode: Option<PruneMode>) -> (r: bool)
    ensures
        r == prunes_fully(mode),
{
    match mode {
        Some(m) => m.is_full(),
        None => false,
    }
}

/// How far a segment has been pruned.
#[derive(Clone, Copy, Debug, PartialEq, Eq, Structural)]
pub struct PruneCheckpoint {
    pub block_number: Option<u64>,
    pub tx_number: Option<u64>,
    pub prune_mode: PruneMode,
}

impl TableValue for PruneCheckpoint {
    type Image = PruneCheckpoint;

    open spec fn image(&self) -> PruneCheckpoint {
        *self
    }

    fn duplicate(&self) -> (r: Self) {
        *self
    }
}

/// A budget for one prune run: how many more rows it may delete, if bounded.
#[derive(Clone, Copy, Debug, PartialEq, Eq, Structural)]
pub struct PruneLimiter {
    pub deleted_entries_limit: Option<usize>,
    pub deleted_entries_count: usize,
}

impl PruneLimiter {
    pub open spec fn limit_reached(&self) -> bool {
        match self.deleted_entries_limit {
            Some(l) => self.deleted_entries_count >= l,
            None => false,
        }
    }

    pub fn is_limit_reached(&self) -> (r: bool)
        ensures
            r == self.limit_reached(),
    {
        match self.deleted_entries_limit {
            Some(l) => self.deleted_entries_count >= l,
            None => false,
        }
    }

    pub fn increment_deleted_entries_count(&mut self)
        ensures
            final(self).deleted_entries_limit == old(self).deleted_entries_limit,
            final(self).deleted_entries_count == if old(self).deleted_entries_count < usize::MAX {
                old(self).deleted_entries_count + 1
            } else {
                usize::MAX as int
            },
    {
        self.deleted_entries_count = self.deleted_entries_count.saturating_add(1);
    }
}

/// The merge block and the total difficulty of the chain from it on.
#[derive(Clone, Copy, Debug, PartialEq, Eq, Structural)]
pub struct ParisSpec {
    pub block: u64,
    pub final_difficulty: U256,
}

/// The chain parameters that the provider reads: the merge (its first block
/// and the total difficulty from there on) and the Shanghai activation time.
#[derive(Clone, Copy, Debug, PartialEq, Eq, Structural)]
pub struct ChainSpec {
    pub paris: Option<ParisSpec>,
    pub shanghai_time: Option<u64>,
}

impl ChainSpec {
    pub open spec fn final_paris_td_spec(&self, number: u64) -> Option<U256> {
        match self.paris {
            Some(p) => if number >= p.block {
                Some(p.final_difficulty)
            } else {
                None
            },
            None => None,
        }
    }

    /// The final total difficulty, for a block at or after the merge.
    pub fn final_paris_total_difficulty(&self, number: u64) -> (r: Option<U256>)
        ensures
            r == self.final_paris_td_spec(number),
    {
        match self.paris {
            Some(p) => if number >= p.block {
                Some(p.final_difficulty)
            } else {
                None
            },
            None => None,
        }
    }

    pub open spec fn shanghai_active_spec(&self, timestamp: u64) -> bool {
        match self.shanghai_time {
            Some(t) => timestamp >= t,
            None => false,
        }
    }

    pub fn is_shanghai_active_at_timestamp(&self, timestamp: u64) -> (r: bool)
        ensures
            r == self.shanghai_active_spec(timestamp),
    {
        match self.shanghai_time {
            Some(t) => timestamp >= t,
            None => false,
        }
    }
}

} // verus!
