//! Stage and prune checkpoints, the choice of state view for a block, and the
//! header sync gap.
use crate::checkpoints::{all_stage_ids, all_stage_ids_spec, PruneCheckpoint, PruneSegment, StageCheckpoint, StageId};
use crate::errors::ProviderError;
use crate::models::SealedHeader;
use crate::primitives::B256;
use crate::provider::DatabaseProvider;
use crate::static_file::StaticFileSegment;

use crate::table::TableValue;
use vstd::prelude::*;

verus! {

/// The checkpoint that `update_pipeline_stages` writes for a stage: the new
/// block number, keeping the stage's other progress unless it is dropped.
pub open spec fn moved_checkpoint(before: Option<StageCheckpoint>, block_number: u64, drop: bool) -> StageCheckpoint {
    StageCheckpoint {
        block_number,
        unit_progress: if drop {
            None
        } else {
            match before {
                Some(c) => c.unit_progress,
                None => None,
            }
        },
    }
}

pub proof fn lemma_every_stage_listed(id: StageId)
    ensures
        exists|i: int| 0 <= i < all_stage_ids_spec().len() && all_stage_ids_spec()[i] == id,
{
    let s = all_stage_ids_spec();
    match id {
        StageId::Headers => assert(s[0] == id),
        StageId::Bodies => assert(s[1] == id),
        StageId::SenderRecovery => assert(s[2] == id),
        StageId::Execution => assert(s[3] == id),
        StageId::AccountHashing => assert(s[4] == id),
        StageId::StorageHashing => assert(s[5] == id),
        StageId::MerkleExecute => assert(s[6] == id),
        StageId::MerkleUnwind => assert(s[7] == id),
        StageId::TransactionLookup => assert(s[8] == id),
        StageId::IndexAccountHistory => assert(s[9] == id),
        StageId::IndexStorageHistory => assert(s[10] == id),
        StageId::Finish => assert(s[11] == id),
    }
}

/// Where state at a block is read from.
#[derive(Clone, Copy, Debug, PartialEq, Eq, Structural)]
pub enum StateProviderChoice {
    /// The plain state tables: the block is the tip.
    Latest,
    /// History as of the changes applied after the block, with the lowest
    /// blocks for which account and storage history are still kept.
    Historical {
        block_number: u64,
        lowest_available_account_history: Option<u64>,
        lowest_available_storage_history: Option<u64>,
    },
}

/// The target of a header sync.
#[derive(Clone, Copy, Debug, PartialEq, Eq, Structural)]
pub enum SyncTarget {
    /// Sync to the block with this hash.
    Tip(B256),
    /// Sync to this block number.
    TipNum(u64),
}

/// How headers are synced: towards a tip that is handed in, or continuously.
#[derive(Clone, Copy, Debug, PartialEq, Eq, Structural)]
pub enum HeaderSyncMode {
    Tip(B256),
    Continuous,
}

/// The gap between the local head and the sync target.
#[derive(Clone, Copy, Debug, PartialEq, Eq, Structural)]
pub struct HeaderSyncGap {
    pub local_head: SealedHeader,
    pub target: SyncTarget,
}

/// The lowest block for which history is kept, after a prune checkpoint.
pub open spec fn lowest_after(c: Option<PruneCheckpoint>) -> Option<u64> {
    match c {
        Some(p) => match p.block_number {
            Some(b) => if b < u64::MAX {
                Some((b + 1) as u64)
            } else {
                None
            },
            None => None,
        },
        None => None,
    }
}

fn lowest_after_checkpoint(c: Option<PruneCheckpoint>) -> (r: Option<u64>)
    ensures
        r == lowest_after(c),
{
    match c {
        Some(p) => match p.block_number {
            Some(b) => if b < u64::MAX {
                Some(b + 1)
            } else {
                None
            },
            None => None,
        },
        None => None,
    }
}

impl DatabaseProvider {
    pub fn get_stage_checkpoint(&self, id: StageId) -> (r: Option<StageCheckpoint>)
        requires
            self.wf(),
        ensures
            r == self.tx.stage_checkpoints.lookup(id),
    {
        match self.tx.stage_checkpoints.get(&id) {
            Some(c) => Some(*c),
            None => None,
        }
    }

    pub fn save_stage_checkpoint(&mut self, id: StageId, checkpoint: StageCheckpoint)
        requires
            old(self).wf(),
        ensures
            final(self).wf(),
            final(self).tx.stage_checkpoints.view() == old(self).tx.stage_checkpoints.view().insert(id, checkpoint),
            final(self).tx.same_chain(&old(self).tx),
            final(self).tx.same_state(&old(self).tx),
            final(self).tx.prune_checkpoints == old(self).tx.prune_checkpoints,
            final(self).tx.stage_checkpoint_progresses == old(self).tx.stage_checkpoint_progresses,
            final(self).static_file_provider == old(self).static_file_provider,
            final(self).chain_spec == old(self).chain_spec,
    {
        self.tx.stage_checkpoints.put(id, checkpoint);
    }

    /// A stage's saved progress inside its unit of work.
    pub fn get_stage_checkpoint_progress(&self, id: StageId) -> (r: Option<Vec<u8>>)
        requires
            self.wf(),
        ensures
            r is Some <==> self.tx.stage_checkpoint_progresses.view().contains_key(id),
            r matches Some(v) ==> v@ == self.tx.stage_checkpoint_progresses.view()[id]@,
    {
        match self.tx.stage_checkpoint_progresses.get(&id) {
            Some(v) => Some(v.duplicate()),
            None => None,
        }
    }

    pub fn save_stage_checkpoint_progress(&mut self, id: StageId, progress: Vec<u8>)
        requires
            old(self).wf(),
        ensures
            final(self).wf(),
            final(self).tx.stage_checkpoint_progresses.view() == old(self).tx.stage_checkpoint_progresses.view().insert(id, progress),
            final(self).tx.same_chain(&old(self).tx),
            final(self).tx.same_state(&old(self).tx),
            final(self).tx.stage_checkpoints == old(self).tx.stage_checkpoints,
            final(self).static_file_provider == old(self).static_file_provider,
            final(self).chain_spec == old(self).chain_spec,
    {
        self.tx.stage_checkpoint_progresses.put(id, progress);
    }

    pub fn get_prune_checkpoint(&self, segment: PruneSegment) -> (r: Option<PruneCheckpoint>)
        requires
            self.wf(),
        ensures
            r == self.tx.prune_checkpoints.lookup(segment),
    {
        match self.tx.prune_checkpoints.get(&segment) {
            Some(c) => Some(*c),
            None => None,
        }
    }

    pub fn save_prune_checkpoint(&mut self, segment: PruneSegment, checkpoint: PruneCheckpoint)
        requires
            old(self).wf(),
        ensures
            final(self).wf(),
            final(self).tx.prune_checkpoints.view() == old(self).tx.prune_checkpoints.view().insert(segment, checkpoint),
            final(self).tx.same_chain(&old(self).tx),
            final(self).tx.same_state(&old(self).tx),
            final(self).tx.stage_checkpoints == old(self).tx.stage_checkpoints,
            final(self).static_file_provider == old(self).static_file_provider,
            final(self).chain_spec == old(self).chain_spec,
    {
        self.tx.prune_checkpoints.put(segment, checkpoint);
    }

    /// Moves every stage to `block_number`; with `drop`, the stages' other
    /// progress is cleared.
    pub fn update_pipeline_stages(&mut self, block_number: u64, drop: bool)
        requires
            old(self).wf(),
        ensures
            final(self).wf(),
            forall|id: StageId| #[trigger] final(self).tx.stage_checkpoints.lookup(id)
                == Some(moved_checkpoint(old(self).tx.stage_checkpoints.lookup(id), block_number, drop)),
            final(self).tx.same_chain(&old(self).tx),
            final(self).tx.same_state(&old(self).tx),
            final(self).tx.accounts_history == old(self).tx.accounts_history,
            final(self).tx.storages_history == old(self).tx.storages_history,
            final(self).tx.hashed_accounts == old(self).tx.hashed_accounts,
            final(self).tx.hashed_storages == old(self).tx.hashed_storages,
            final(self).tx.prune_checkpoints == old(self).tx.prune_checkpoints,
            final(self).tx.stage_checkpoint_progresses == old(self).tx.stage_checkpoint_progresses,
            final(self).static_file_provider == old(self).static_file_provider,
            final(self).chain_spec == old(self).chain_spec,
    {
        let ids = all_stage_ids();
        let mut i: usize = 0;
        while i < ids.len()
            invariant
                self.tx.stage_checkpoints.wf(),
                ids@ == all_stage_ids_spec(),
                i <= ids@.len(),
                forall|j: int| 0 <= j < i ==> #[trigger] self.tx.stage_checkpoints.lookup(ids@[j])
                    == Some(moved_checkpoint(old(self).tx.stage_checkpoints.lookup(ids@[j]), block_number, drop)),
                forall|id: StageId| (forall|j: int| 0 <= j < i ==> ids@[j] != id) ==> #[trigger] self.tx.stage_checkpoints.lookup(id)
                    == old(self).tx.stage_checkpoints.lookup(id),
                self.tx.same_chain(&old(self).tx),
                self.tx.same_state(&old(self).tx),
                self.tx.accounts_history == old(self).tx.accounts_history,
                self.tx.storages_history == old(self).tx.storages_history,
                self.tx.hashed_accounts == old(self).tx.hashed_accounts,
                self.tx.hashed_storages == old(self).tx.hashed_storages,
                self.tx.prune_checkpoints == old(self).tx.prune_checkpoints,
                self.tx.stage_checkpoint_progresses == old(self).tx.stage_checkpoint_progresses,
                self.static_file_provider == old(self).static_file_provider,
                self.chain_spec == old(self).chain_spec,
                old(self).wf(),
            decreases ids@.len() - i,
        {
            let id = ids[i];
            let ghost t0 = self.tx.stage_checkpoints;
            let ghost before = self.tx.stage_checkpoints.view();
            proof {
                assert forall|j: int| 0 <= j < i implies ids@[j] != id by {
                    assert(ids@[j].index_spec() != ids@[i as int].index_spec());
                }
            }
            let existing = match self.tx.stage_checkpoints.get(&id) {
                Some(c) => *c,
                None => StageCheckpoint { block_number: 0, unit_progress: None },
            };
            let unit_progress = if drop {
                None
            } else {
                existing.unit_progress
            };
            self.tx.stage_checkpoints.put(id, StageCheckpoint { block_number, unit_progress });
            proof {
                assert forall|j: int| 0 <= j < i + 1 implies #[trigger] self.tx.stage_checkpoints.lookup(ids@[j])
                    == Some(moved_checkpoint(old(self).tx.stage_checkpoints.lookup(ids@[j]), block_number, drop)) by {
                    if j < i {
                        assert(ids@[j] != id);
                        assert(t0.lookup(ids@[j]) == Some(moved_checkpoint(old(self).tx.stage_checkpoints.lookup(ids@[j]), block_number, drop)));
                        assert(before.contains_key(ids@[j]) == self.tx.stage_checkpoints.view().contains_key(ids@[j]));
                    } else {
                        assert(forall|x: int| 0 <= x < i ==> ids@[x] != id);
                        assert(t0.lookup(id) == old(self).tx.stage_checkpoints.lookup(id));
                    }
                }
                assert forall|a: StageId| (forall|j: int| 0 <= j < i + 1 ==> ids@[j] != a) implies #[trigger] self.tx.stage_checkpoints.lookup(a)
                    == old(self).tx.stage_checkpoints.lookup(a) by {
                    assert(ids@[i as int] != a);
                    assert(t0.lookup(a) == old(self).tx.stage_checkpoints.lookup(a));
                    assert(before.contains_key(a) == self.tx.stage_checkpoints.view().contains_key(a));
                }
            }
            i = i + 1;
        }
        proof {
            assert forall|id: StageId| #[trigger] self.tx.stage_checkpoints.lookup(id)
                == Some(moved_checkpoint(old(self).tx.stage_checkpoints.lookup(id), block_number, drop)) by {
                lemma_every_stage_listed(id);
                let j = choose|j: int| 0 <= j < all_stage_ids_spec().len() && all_stage_ids_spec()[j] == id;
                assert(ids@[j] == id);
            }
        }
    }

    /// The block the whole pipeline has reached: the `Finish` stage's
    /// checkpoint, or zero.
    pub fn best_block_number(&self) -> (r: u64)
        requires
            self.wf(),
        ensures
            r == match self.tx.stage_checkpoints.lookup(StageId::Finish) {
                Some(c) => c.block_number,
                None => 0,
            },
    {
        match self.get_stage_checkpoint(StageId::Finish) {
            Some(c) => c.block_number,
            None => 0,
        }
    }

    /// The highest canonical block: the larger of the last canonical-hash row
    /// and the static-file header head, or zero.
    pub fn last_block_number(&self) -> (r: u64)
        requires
            self.wf(),
        ensures
            self.tx.canonical_headers.view().contains_key(r) || self.static_head(StaticFileSegment::Headers) == Some(r) || r == 0,
            forall|n: u64| #[trigger] self.tx.canonical_headers.view().contains_key(n) ==> n <= r,
            self.static_head(StaticFileSegment::Headers) matches Some(h) ==> h <= r,
    {
        let db = match self.tx.canonical_headers.last() {
            Some((n, _)) => Some(n),
            None => None,
        };
        let sf = self.static_file_provider.get_highest_static_file_block(StaticFileSegment::Headers);
        let r = match (db, sf) {
            (Some(a), Some(b)) => if a >= b {
                a
            } else {
                b
            },
            (Some(a), None) => a,
            (None, Some(b)) => b,
            (None, None) => 0,
        };
        proof {
            if db is None {
                assert forall|n: u64| #[trigger] self.tx.canonical_headers.view().contains_key(n) implies n <= r by {
                    assert(self.tx.canonical_headers.view().dom().contains(n));
                    vstd::set_lib::lemma_set_empty_equivalency_len(self.tx.canonical_headers.view().dom());
                }
            }
        }
        r
    }

    /// Where to read state at `block_number` from: plain state if it is both
    /// the pipeline's best block and the last canonical block, else history
    /// as of the next block, bounded below by how far account and storage
    /// history were pruned.
    pub fn state_provider_by_block_number(&self, block_number: u64) -> (r: StateProviderChoice)
        requires
            self.wf(),
            block_number < u64::MAX,
        ensures
            ({
                let best = match self.tx.stage_checkpoints.lookup(StageId::Finish) {
                    Some(c) => c.block_number,
                    None => 0,
                };
                if block_number == best && (forall|n: u64| #[trigger] self.tx.canonical_headers.view().contains_key(n) ==> n <= block_number)
                    && (self.static_head(StaticFileSegment::Headers) matches Some(h) ==> h <= block_number)
                    && (self.tx.canonical_headers.view().contains_key(block_number) || self.static_head(StaticFileSegment::Headers) == Some(block_number) || block_number == 0) {
                    r == StateProviderChoice::Latest
                } else {
                    r == (StateProviderChoice::Historical {
                        block_number: (block_number + 1) as u64,
                        lowest_available_account_history: lowest_after(self.tx.prune_checkpoints.lookup(PruneSegment::AccountHistory)),
                        lowest_available_storage_history: lowest_after(self.tx.prune_checkpoints.lookup(PruneSegment::StorageHistory)),
                    })
                }
            }),
    {
        let best = self.best_block_number();
        let last = self.last_block_number();
        if block_number == best && block_number == last {
            return StateProviderChoice::Latest;
        }
        proof {
            if block_number == best && (forall|n: u64| #[trigger] self.tx.canonical_headers.view().contains_key(n) ==> n <= block_number)
                && (self.static_head(StaticFileSegment::Headers) matches Some(h) ==> h <= block_number)
                && (self.tx.canonical_headers.view().contains_key(block_number) || self.static_head(StaticFileSegment::Headers) == Some(block_number) || block_number == 0) {
                if self.tx.canonical_headers.view().contains_key(last) {
                    assert(last <= block_number);
                }
                if self.tx.canonical_headers.view().contains_key(block_number) {
                    assert(block_number <= last);
                }
            }
        }
        let account = self.get_prune_checkpoint(PruneSegment::AccountHistory);
        let storage = self.get_prune_checkpoint(PruneSegment::StorageHistory);
        StateProviderChoice::Historical {
            block_number: block_number + 1,
            lowest_available_account_history: lowest_after_checkpoint(account),
            lowest_available_storage_history: lowest_after_checkpoint(storage),
        }
    }

    /// Reconciles the static-file header head with the tables' highest
    /// uninterrupted block, then reports the local head and the sync target.
    /// A static-file head ahead of the tables (an interrupted commit) is cut
    /// back; one behind them is an error.
    pub fn sync_gap(&mut self, mode: HeaderSyncMode, highest_uninterrupted_block: u64) -> (r: Result<HeaderSyncGap, ProviderError>)
        requires
            old(self).wf(),
            highest_uninterrupted_block < u64::MAX,
        ensures
            final(self).wf(),
            final(self).tx == old(self).tx,
            final(self).chain_spec == old(self).chain_spec,
            ({
                let next_static: int = match old(self).static_head(StaticFileSegment::Headers) {
                    Some(h) => h + 1,
                    None => 0,
                };
                let next_block: int = highest_uninterrupted_block + 1;
                &&& next_static < next_block ==> r == Err::<HeaderSyncGap, ProviderError>(ProviderError::HeaderNotFound(next_static as u64))
                    && final(self).static_file_provider == old(self).static_file_provider
                &&& next_static >= next_block ==> final(self).static_file_provider.headers@
                    == old(self).static_file_provider.headers@.subrange(0, next_block)
                &&& next_static >= next_block ==> match r {
                    Ok(gap) => gap.local_head.header == final(self).static_file_provider.headers@[highest_uninterrupted_block as int].header
                        && gap.local_head.hash == final(self).static_file_provider.headers@[highest_uninterrupted_block as int].hash
                        && gap.target == match mode {
                            HeaderSyncMode::Tip(h) => SyncTarget::Tip(h),
                            HeaderSyncMode::Continuous => SyncTarget::TipNum((highest_uninterrupted_block + 1) as u64),
                        },
                    Err(e) => false,
                }
            }),
    {
        // The static files hold headers 0..len, so the next one they expect is len.
        let next_static: u128 = self.static_file_provider.headers.len() as u128;
        let next_block: u128 = highest_uninterrupted_block as u128 + 1;
        let ghost len = self.static_file_provider.headers@.len();
        if next_static > next_block {
            self.static_file_provider.prune_headers((next_static - next_block) as u64);
        } else if next_static < next_block {
            return Err(ProviderError::HeaderNotFound(next_static as u64));
        } else {
            proof {
                assert(self.static_file_provider.headers@ =~= self.static_file_provider.headers@.subrange(0, next_block as int));
            }
        }
        proof {
            assert(next_static == len);
            assert(self.static_file_provider.headers@.len() == next_block);
        }
        let local_head = match self.static_file_provider.sealed_header(highest_uninterrupted_block) {
            Some(h) => h,
            None => {
                return Err(ProviderError::HeaderNotFound(highest_uninterrupted_block));
            },
        };
        let target = match mode {
            HeaderSyncMode::Tip(h) => SyncTarget::Tip(h),
            HeaderSyncMode::Continuous => SyncTarget::TipNum(highest_uninterrupted_block + 1),
        };
        Ok(HeaderSyncGap { local_head, target })
    }
}

} // verus!
