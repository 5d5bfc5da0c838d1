//! The hashed-state mirror: accounts and storage keyed by the Keccak-256
//! digests of addresses and slots.
use crate::changes::{apply_rows, apply_updates, first_per_key, first_value, firsts_of, revert_rows};
use crate::errors::{ProviderError, RootMismatch};
use crate::models::{Account, BlockNumberAddress, BlockNumberSlot, HashedSlotKey, SlotKey};
use crate::primitives::{keccak256_address, keccak256_of, keccak256_word, Address, B256, U256};
use crate::provider::{account_change_bounds, account_key_pairs, account_pairs, slot_key_pairs, slot_pairs, slot_row, storage_change_bounds, DatabaseProvider};

use crate::table::{TableKey, TableValue};
use vstd::prelude::*;

verus! {

/// The hashed key of an address.
pub open spec fn hashed_address(a: Address) -> B256 {
    keccak256_of(a.bytes())
}

/// The hashed key of a storage slot.
pub open spec fn hashed_slot(k: SlotKey) -> HashedSlotKey {
    HashedSlotKey { hashed_address: keccak256_of(k.address.bytes()), hashed_slot: keccak256_of(k.slot.bytes()) }
}

/// Account rows keyed by hashed address.
pub open spec fn hashed_account_rows(accounts: Seq<(Address, Option<Account>)>) -> Seq<(B256, Option<Account>)> {
    Seq::new(accounts.len(), |i: int| (hashed_address(accounts[i].0), accounts[i].1))
}

/// Storage values as hashed rows: zero removes the slot.
pub open spec fn hashed_storage_rows(entries: Seq<(SlotKey, U256)>) -> Seq<(HashedSlotKey, Option<U256>)> {
    Seq::new(entries.len(), |i: int| (hashed_slot(entries[i].0), slot_row(entries[i].1)))
}

/// Account-change rows as (hashed address, value before the change).
pub open spec fn hashed_account_changes(rows: Seq<(BlockNumberAddress, Option<Account>)>) -> Seq<(B256, Option<Account>)> {
    Seq::new(rows.len(), |i: int| (hashed_address(rows[i].0.address), rows[i].1))
}

/// Storage-change rows as (hashed slot, value before the change).
pub open spec fn hashed_storage_changes(rows: Seq<(BlockNumberSlot, U256)>) -> Seq<(HashedSlotKey, U256)> {
    Seq::new(rows.len(), |i: int| (hashed_slot(SlotKey { address: rows[i].0.address, slot: rows[i].0.slot }), rows[i].1))
}

/// The hashed keys that a block range touched, which bound the part of the
/// state trie to recompute, and the accounts it removed.
pub struct TriePrefixSets {
    pub account_prefix_set: Vec<B256>,
    pub storage_prefix_set: Vec<HashedSlotKey>,
    pub destroyed_accounts: Vec<B256>,
}

/// The hashed addresses of rows whose account is absent, in order.
pub open spec fn destroyed_of(rows: Seq<(B256, Option<Account>)>) -> Seq<B256>
    decreases rows.len(),
{
    if rows.len() == 0 {
        Seq::empty()
    } else {
        let prev = destroyed_of(rows.drop_last());
        if rows.last().1 is None {
            prev.push(rows.last().0)
        } else {
            prev
        }
    }
}

/// The prefix sets of account rows and touched slots: every row's and every
/// slot's hashed address, the slots themselves, and the removed accounts.
pub open spec fn prefix_sets_of(r: TriePrefixSets, rows: Seq<(B256, Option<Account>)>, slots: Seq<HashedSlotKey>) -> bool {
    &&& r.account_prefix_set@ == Seq::new(rows.len(), |i: int| rows[i].0) + Seq::new(slots.len(), |j: int| slots[j].hashed_address)
    &&& r.storage_prefix_set@ == slots
    &&& r.destroyed_accounts@ == destroyed_of(rows)
}

/// Builds the prefix sets of account rows and touched slots.
pub fn build_prefix_sets(rows: &Vec<(B256, Option<Account>)>, slots: Vec<HashedSlotKey>) -> (r: TriePrefixSets)
    ensures
        prefix_sets_of(r, rows@, slots@),
{
    let mut account_prefix_set: Vec<B256> = Vec::new();
    let mut destroyed_accounts: Vec<B256> = Vec::new();
    let mut i: usize = 0;
    while i < rows.len()
        invariant
            i <= rows@.len(),
            account_prefix_set@ == Seq::new(i as nat, |x: int| rows@[x].0),
            destroyed_accounts@ == destroyed_of(rows@.subrange(0, i as int)),
        decreases rows@.len() - i,
    {
        account_prefix_set.push(rows[i].0);
        if rows[i].1.is_none() {
            destroyed_accounts.push(rows[i].0);
        }
        proof {
            assert(account_prefix_set@ =~= Seq::new((i + 1) as nat, |x: int| rows@[x].0));
            assert(rows@.subrange(0, i + 1).drop_last() =~= rows@.subrange(0, i as int));
        }
        i = i + 1;
    }
    proof {
        assert(rows@.subrange(0, i as int) =~= rows@);
    }
    let ghost base = account_prefix_set@;
    let mut j: usize = 0;
    while j < slots.len()
        invariant
            j <= slots@.len(),
            base == Seq::new(rows@.len(), |x: int| rows@[x].0),
            account_prefix_set@ == base + Seq::new(j as nat, |x: int| slots@[x].hashed_address),
        decreases slots@.len() - j,
    {
        account_prefix_set.push(slots[j].hashed_address);
        proof {
            assert(account_prefix_set@ =~= base + Seq::new((j + 1) as nat, |x: int| slots@[x].hashed_address));
        }
        j = j + 1;
    }
    TriePrefixSets { account_prefix_set, storage_prefix_set: slots, destroyed_accounts }
}

/// What `insert_hashes` wrote: the changed accounts and slots with their
/// current values, and the touched hashed keys.
pub struct HashingOutcome {
    pub accounts: Vec<(Address, Option<Account>)>,
    pub slots: Vec<(SlotKey, U256)>,
    pub prefix_sets: TriePrefixSets,
}

/// Checks a recomputed state root against the expected one.
pub fn check_state_root(got: B256, expected: B256, block_number: u64, block_hash: B256) -> (r: Result<(), ProviderError>)
    ensures
        got == expected ==> r is Ok,
        got != expected ==> r == Err::<(), ProviderError>(ProviderError::StateRootMismatch(RootMismatch { got, expected, block_number, block_hash })),
{
    if got == expected {
        Ok(())
    } else {
        Err(ProviderError::StateRootMismatch(RootMismatch { got, expected, block_number, block_hash }))
    }
}

impl DatabaseProvider {
    /// Mirrors accounts into `HashedAccounts` under their hashed addresses,
    /// in order; `None` removes the account. Returns the hashed rows.
    pub fn insert_account_for_hashing(&mut self, accounts: &Vec<(Address, Option<Account>)>) -> (r: Vec<(B256, Option<Account>)>)
        requires
            old(self).wf(),
        ensures
            final(self).wf(),
            final(self).static_file_provider == old(self).static_file_provider,
            final(self).chain_spec == old(self).chain_spec,
            final(self).tx.same_chain(&old(self).tx),
            final(self).tx.same_state(&old(self).tx),
            final(self).tx.hashed_storages == old(self).tx.hashed_storages,
            final(self).tx.accounts_history == old(self).tx.accounts_history,
            final(self).tx.storages_history == old(self).tx.storages_history,
            final(self).tx.stage_checkpoints == old(self).tx.stage_checkpoints,
            final(self).tx.prune_checkpoints == old(self).tx.prune_checkpoints,
            final(self).tx.stage_checkpoint_progresses == old(self).tx.stage_checkpoint_progresses,
            r@ == hashed_account_rows(accounts@),
            final(self).tx.hashed_accounts.view() == apply_rows(old(self).tx.hashed_accounts.view(), r@),
    {
        let mut rows: Vec<(B256, Option<Account>)> = Vec::new();
        let mut i: usize = 0;
        while i < accounts.len()
            invariant
                i <= accounts@.len(),
                rows@ == hashed_account_rows(accounts@.subrange(0, i as int)),
            decreases accounts@.len() - i,
        {
            let h = keccak256_address(&accounts[i].0);
            rows.push((h, accounts[i].1));
            proof {
                assert(rows@ =~= hashed_account_rows(accounts@.subrange(0, i + 1)));
            }
            i = i + 1;
        }
        proof {
            assert(accounts@.subrange(0, i as int) =~= accounts@);
        }
        apply_updates(&mut self.tx.hashed_accounts, &rows);
        rows
    }

    /// Mirrors storage values into `HashedStorages` under hashed address and
    /// slot, in order; a zero value removes the slot. Returns the hashed keys.
    pub fn insert_storage_for_hashing(&mut self, entries: &Vec<(SlotKey, U256)>) -> (r: Vec<HashedSlotKey>)
        requires
            old(self).wf(),
        ensures
            final(self).wf(),
            final(self).static_file_provider == old(self).static_file_provider,
            final(self).chain_spec == old(self).chain_spec,
            final(self).tx.same_chain(&old(self).tx),
            final(self).tx.same_state(&old(self).tx),
            final(self).tx.hashed_accounts == old(self).tx.hashed_accounts,
            final(self).tx.accounts_history == old(self).tx.accounts_history,
            final(self).tx.storages_history == old(self).tx.storages_history,
            final(self).tx.stage_checkpoints == old(self).tx.stage_checkpoints,
            final(self).tx.prune_checkpoints == old(self).tx.prune_checkpoints,
            final(self).tx.stage_checkpoint_progresses == old(self).tx.stage_checkpoint_progresses,
            r@.len() == entries@.len(),
            forall|i: int| 0 <= i < r@.len() ==> r@[i] == hashed_slot(#[trigger] entries@[i].0),
            final(self).tx.hashed_storages.view() == apply_rows(
                old(self).tx.hashed_storages.view(),
                hashed_storage_rows(entries@),
            ),
    {
        let mut rows: Vec<(HashedSlotKey, Option<U256>)> = Vec::new();
        let mut keys: Vec<HashedSlotKey> = Vec::new();
        let mut i: usize = 0;
        while i < entries.len()
            invariant
                i <= entries@.len(),
                rows@ == hashed_storage_rows(entries@.subrange(0, i as int)),
                keys@.len() == i,
                forall|j: int| 0 <= j < i ==> keys@[j] == hashed_slot(#[trigger] entries@[j].0),
            decreases entries@.len() - i,
        {
            let (k, v) = entries[i];
            let key = HashedSlotKey { hashed_address: keccak256_address(&k.address), hashed_slot: keccak256_word(&k.slot) };
            let row = if v.is_zero() {
                None
            } else {
                Some(v)
            };
            rows.push((key, row));
            keys.push(key);
            proof {
                assert(rows@ =~= hashed_storage_rows(entries@.subrange(0, i + 1)));
            }
            i = i + 1;
        }
        proof {
            assert(entries@.subrange(0, i as int) =~= entries@);
        }
        apply_updates(&mut self.tx.hashed_storages, &rows);
        keys
    }

    /// Brings the hashed mirror up to date with blocks `start..=end`: every
    /// account and slot that changed in the range is read from plain state
    /// and written under its hashed key (an absent account or a zero slot is
    /// removed). Returns the rows written and the touched hashed keys; the
    /// caller recomputes the state root over them and checks it with
    /// `check_state_root`.
    pub fn insert_hashes(&mut self, start: u64, end: u64) -> (r: HashingOutcome)
        requires
            old(self).wf(),
        ensures
            final(self).wf(),
            final(self).static_file_provider == old(self).static_file_provider,
            final(self).chain_spec == old(self).chain_spec,
            final(self).tx.same_chain(&old(self).tx),
            final(self).tx.same_state(&old(self).tx),
            final(self).tx.accounts_history == old(self).tx.accounts_history,
            final(self).tx.storages_history == old(self).tx.storages_history,
            final(self).tx.stage_checkpoints == old(self).tx.stage_checkpoints,
            final(self).tx.prune_checkpoints == old(self).tx.prune_checkpoints,
            final(self).tx.stage_checkpoint_progresses == old(self).tx.stage_checkpoint_progresses,
            ({
                let (alo, ahi) = account_change_bounds(start, end);
                let (slo, shi) = storage_change_bounds(start, end);
                let apairs = account_pairs(old(self).tx.account_changesets.rows_between(alo, ahi));
                let spairs = slot_pairs(old(self).tx.storage_changesets.rows_between(slo, shi));
                &&& forall|i: int| 0 <= i < r.accounts@.len() ==> {
                    &&& first_value(apairs, (#[trigger] r.accounts@[i]).0) is Some
                    &&& r.accounts@[i].1 == old(self).tx.plain_account_state.lookup(r.accounts@[i].0)
                }
                &&& forall|a: Address| #[trigger] first_value(apairs, a) is Some ==> exists|i: int|
                    0 <= i < r.accounts@.len() && r.accounts@[i].0 == a
                &&& forall|i: int| 0 <= i < r.slots@.len() ==> {
                    &&& first_value(spairs, (#[trigger] r.slots@[i]).0) is Some
                    &&& r.slots@[i].1 == match old(self).tx.plain_storage_state.lookup(r.slots@[i].0) {
                        Some(v) => v,
                        None => U256 { hi: 0, lo: 0 },
                    }
                }
                &&& forall|k: SlotKey| #[trigger] first_value(spairs, k) is Some ==> exists|i: int|
                    0 <= i < r.slots@.len() && r.slots@[i].0 == k
                &&& prefix_sets_of(r.prefix_sets, hashed_account_rows(r.accounts@), Seq::new(r.slots@.len(), |i: int| hashed_slot(r.slots@[i].0)))
                &&& final(self).tx.hashed_accounts.view() == apply_rows(old(self).tx.hashed_accounts.view(), hashed_account_rows(r.accounts@))
                &&& final(self).tx.hashed_storages.view() == apply_rows(old(self).tx.hashed_storages.view(), hashed_storage_rows(r.slots@))
            }),
    {
        let alo = BlockNumberAddress { block_number: start, address: Address { hi: 0, mid: 0, lo: 0 } };
        let ahi = BlockNumberAddress { block_number: end, address: Address { hi: u64::MAX, mid: u64::MAX, lo: u32::MAX } };
        let slo = BlockNumberSlot { block_number: start, address: Address { hi: 0, mid: 0, lo: 0 }, slot: B256 { a: 0, b: 0, c: 0, d: 0 } };
        let shi = BlockNumberSlot { block_number: end, address: Address { hi: u64::MAX, mid: u64::MAX, lo: u32::MAX }, slot: B256 { a: u64::MAX, b: u64::MAX, c: u64::MAX, d: u64::MAX } };
        let ghost o = self.tx;
        let srows = self.tx.storage_changesets.between(&slo, &shi);
        proof {
            let g = o.storage_changesets.rows_between(slo.rank(), shi.rank());
            assert forall|i: int| 0 <= i < srows@.len() implies srows@[i] == g[i] by {
                assert(srows@[i].0 == g[i].0 && srows@[i].1.image() == g[i].1.image());
            }
            assert(srows@ =~= g);
        }
        let spairs = slot_key_pairs(&srows);
        let sfirsts = first_per_key(&spairs);
        let mut slots: Vec<(SlotKey, U256)> = Vec::new();
        let mut i: usize = 0;
        while i < sfirsts.len()
            invariant
                self.tx == o,
                o.plain_storage_state.wf(),
                i <= sfirsts@.len(),
                slots@.len() == i,
                forall|j: int| 0 <= j < i ==> (#[trigger] slots@[j]).0 == sfirsts@[j].0 && slots@[j].1 == match o.plain_storage_state.lookup(sfirsts@[j].0) {
                    Some(v) => v,
                    None => U256 { hi: 0, lo: 0 },
                },
            decreases sfirsts@.len() - i,
        {
            let k = sfirsts[i].0;
            let v = match self.tx.plain_storage_state.get(&k) {
                Some(v) => *v,
                None => U256::zero(),
            };
            slots.push((k, v));
            i = i + 1;
        }
        let arows = self.tx.account_changesets.between(&alo, &ahi);
        proof {
            let g = o.account_changesets.rows_between(alo.rank(), ahi.rank());
            assert forall|i: int| 0 <= i < arows@.len() implies arows@[i] == g[i] by {
                assert(arows@[i].0 == g[i].0 && arows@[i].1.image() == g[i].1.image());
            }
            assert(arows@ =~= g);
        }
        let apairs = account_key_pairs(&arows);
        let afirsts = first_per_key(&apairs);
        let mut accounts: Vec<(Address, Option<Account>)> = Vec::new();
        let mut i: usize = 0;
        while i < afirsts.len()
            invariant
                self.tx == o,
                o.plain_account_state.wf(),
                i <= afirsts@.len(),
                accounts@.len() == i,
                forall|j: int| 0 <= j < i ==> (#[trigger] accounts@[j]).0 == afirsts@[j].0 && accounts@[j].1 == o.plain_account_state.lookup(afirsts@[j].0),
            decreases afirsts@.len() - i,
        {
            let a = afirsts[i].0;
            let v = match self.tx.plain_account_state.get(&a) {
                Some(acc) => Some(*acc),
                None => None,
            };
            accounts.push((a, v));
            i = i + 1;
        }
        proof {
            assert forall|i: int| 0 <= i < accounts@.len() implies first_value(apairs@, (#[trigger] accounts@[i]).0) is Some by {
                assert(first_value(apairs@, afirsts@[i].0) == Some(afirsts@[i].1));
            }
            assert forall|a: Address| #[trigger] first_value(apairs@, a) is Some implies exists|i: int|
                0 <= i < accounts@.len() && accounts@[i].0 == a by {
                let j = choose|j: int| 0 <= j < afirsts@.len() && afirsts@[j].0 == a;
                assert(accounts@[j].0 == a);
            }
            assert forall|i: int| 0 <= i < slots@.len() implies first_value(spairs@, (#[trigger] slots@[i]).0) is Some by {
                assert(first_value(spairs@, sfirsts@[i].0) == Some(sfirsts@[i].1));
            }
            assert forall|k: SlotKey| #[trigger] first_value(spairs@, k) is Some implies exists|i: int|
                0 <= i < slots@.len() && slots@[i].0 == k by {
                let j = choose|j: int| 0 <= j < sfirsts@.len() && sfirsts@[j].0 == k;
                assert(slots@[j].0 == k);
            }
        }
        let storage_prefix_set = self.insert_storage_for_hashing(&slots);
        let rows = self.insert_account_for_hashing(&accounts);
        proof {
            assert(storage_prefix_set@ =~= Seq::new(slots@.len(), |i: int| hashed_slot(slots@[i].0)));
        }
        let prefix_sets = build_prefix_sets(&rows, storage_prefix_set);
        HashingOutcome { accounts, slots, prefix_sets }
    }

    /// Inserts the hashes of blocks `start..=end` and checks the state root
    /// that the trie gives over the updated mirror (`computed_root`)
    /// against `expected_state_root`: a difference is `StateRootMismatch`,
    /// naming the range's last block and `end_block_hash`.
    pub fn insert_hashes_checked(&mut self, start: u64, end: u64, end_block_hash: B256, expected_state_root: B256, computed_root: B256) -> (r: Result<HashingOutcome, ProviderError>)
        requires
            old(self).wf(),
        ensures
            final(self).wf(),
            final(self).static_file_provider == old(self).static_file_provider,
            final(self).chain_spec == old(self).chain_spec,
            final(self).tx.same_chain(&old(self).tx),
            final(self).tx.same_state(&old(self).tx),
            final(self).tx.accounts_history == old(self).tx.accounts_history,
            final(self).tx.storages_history == old(self).tx.storages_history,
            final(self).tx.stage_checkpoints == old(self).tx.stage_checkpoints,
            r is Ok <==> computed_root == expected_state_root,
            r is Err ==> r == Err::<HashingOutcome, ProviderError>(ProviderError::StateRootMismatch(RootMismatch {
                got: computed_root,
                expected: expected_state_root,
                block_number: end,
                block_hash: end_block_hash,
            })),
            r matches Ok(o) ==> final(self).tx.hashed_accounts.view() == apply_rows(old(self).tx.hashed_accounts.view(), hashed_account_rows(o.accounts@))
                && final(self).tx.hashed_storages.view() == apply_rows(old(self).tx.hashed_storages.view(), hashed_storage_rows(o.slots@)),
    {
        let outcome = self.insert_hashes(start, end);
        match check_state_root(computed_root, expected_state_root, end, end_block_hash) {
            Ok(()) => Ok(outcome),
            Err(e) => Err(e),
        }
    }

    /// Puts `HashedAccounts` back to the values from before blocks
    /// `start..=end`: each account changed in the range takes, under its
    /// hashed address, the value recorded by its earliest change. Returns
    /// each hashed address once with that value.
    pub fn unwind_account_hashing(&mut self, start: u64, end: u64) -> (r: Vec<(B256, Option<Account>)>)
        requires
            old(self).wf(),
        ensures
            final(self).wf(),
            final(self).static_file_provider == old(self).static_file_provider,
            final(self).chain_spec == old(self).chain_spec,
            final(self).tx.same_chain(&old(self).tx),
            final(self).tx.same_state(&old(self).tx),
            final(self).tx.hashed_storages == old(self).tx.hashed_storages,
            final(self).tx.accounts_history == old(self).tx.accounts_history,
            final(self).tx.storages_history == old(self).tx.storages_history,
            final(self).tx.stage_checkpoints == old(self).tx.stage_checkpoints,
            final(self).tx.prune_checkpoints == old(self).tx.prune_checkpoints,
            final(self).tx.stage_checkpoint_progresses == old(self).tx.stage_checkpoint_progresses,
            ({
                let (lo, hi) = account_change_bounds(start, end);
                let changes = hashed_account_changes(old(self).tx.account_changesets.rows_between(lo, hi));
                &&& firsts_of(r@, changes)
                &&& forall|h: B256| #[trigger] final(self).tx.hashed_accounts.lookup(h) == match first_value(changes, h) {
                    Some(v) => v,
                    None => old(self).tx.hashed_accounts.lookup(h),
                }
            }),
    {
        let lo = BlockNumberAddress { block_number: start, address: Address { hi: 0, mid: 0, lo: 0 } };
        let hi = BlockNumberAddress { block_number: end, address: Address { hi: u64::MAX, mid: u64::MAX, lo: u32::MAX } };
        let rows = self.tx.account_changesets.between(&lo, &hi);
        let ghost arows = self.tx.account_changesets.rows_between(lo.rank(), hi.rank());
        let mut pairs: Vec<(B256, Option<Account>)> = Vec::new();
        let mut i: usize = 0;
        while i < rows.len()
            invariant
                i <= rows@.len(),
                rows@.len() == arows.len(),
                forall|j: int| 0 <= j < rows@.len() ==> #[trigger] rows@[j].0 == arows[j].0 && rows@[j].1.image() == arows[j].1.image(),
                pairs@ == hashed_account_changes(arows.subrange(0, i as int)),
            decreases rows@.len() - i,
        {
            let h = keccak256_address(&rows[i].0.address);
            pairs.push((h, rows[i].1));
            proof {
                assert(rows@[i as int].0 == arows[i as int].0 && rows@[i as int].1.image() == arows[i as int].1.image());
                assert(pairs@ =~= hashed_account_changes(arows.subrange(0, i + 1)));
            }
            i = i + 1;
        }
        proof {
            assert(arows.subrange(0, i as int) =~= arows);
        }
        let firsts = first_per_key(&pairs);
        revert_rows(&mut self.tx.hashed_accounts, &firsts);
        proof {
            assert forall|h: B256| #[trigger] self.tx.hashed_accounts.lookup(h) == match first_value(pairs@, h) {
                Some(v) => v,
                None => old(self).tx.hashed_accounts.lookup(h),
            } by {
                crate::provider::lemma_reverted_firsts(firsts@, firsts@, pairs@, h);
            }
        }
        firsts
    }

    /// Puts `HashedStorages` back to the values from before blocks
    /// `start..=end`: each slot changed in the range takes the value recorded
    /// by its earliest change (a zero value removes it). Returns each hashed
    /// slot once with that value.
    pub fn unwind_storage_hashing(&mut self, start: u64, end: u64) -> (r: Vec<(HashedSlotKey, U256)>)
        requires
            old(self).wf(),
        ensures
            final(self).wf(),
            final(self).static_file_provider == old(self).static_file_provider,
            final(self).chain_spec == old(self).chain_spec,
            final(self).tx.same_chain(&old(self).tx),
            final(self).tx.same_state(&old(self).tx),
            final(self).tx.hashed_accounts == old(self).tx.hashed_accounts,
            final(self).tx.accounts_history == old(self).tx.accounts_history,
            final(self).tx.storages_history == old(self).tx.storages_history,
            final(self).tx.stage_checkpoints == old(self).tx.stage_checkpoints,
            final(self).tx.prune_checkpoints == old(self).tx.prune_checkpoints,
            final(self).tx.stage_checkpoint_progresses == old(self).tx.stage_checkpoint_progresses,
            ({
                let (lo, hi) = storage_change_bounds(start, end);
                let changes = hashed_storage_changes(old(self).tx.storage_changesets.rows_between(lo, hi));
                &&& firsts_of(r@, changes)
                &&& forall|k: HashedSlotKey| #[trigger] final(self).tx.hashed_storages.lookup(k) == match first_value(changes, k) {
                    Some(v) => slot_row(v),
                    None => old(self).tx.hashed_storages.lookup(k),
                }
            }),
    {
        let lo = BlockNumberSlot { block_number: start, address: Address { hi: 0, mid: 0, lo: 0 }, slot: B256 { a: 0, b: 0, c: 0, d: 0 } };
        let hi = BlockNumberSlot { block_number: end, address: Address { hi: u64::MAX, mid: u64::MAX, lo: u32::MAX }, slot: B256 { a: u64::MAX, b: u64::MAX, c: u64::MAX, d: u64::MAX } };
        let rows = self.tx.storage_changesets.between(&lo, &hi);
        let ghost srows = self.tx.storage_changesets.rows_between(lo.rank(), hi.rank());
        let mut pairs: Vec<(HashedSlotKey, U256)> = Vec::new();
        let mut i: usize = 0;
        while i < rows.len()
            invariant
                i <= rows@.len(),
                rows@.len() == srows.len(),
                forall|j: int| 0 <= j < rows@.len() ==> #[trigger] rows@[j].0 == srows[j].0 && rows@[j].1.image() == srows[j].1.image(),
                pairs@ == hashed_storage_changes(srows.subrange(0, i as int)),
            decreases rows@.len() - i,
        {
            let key = HashedSlotKey { hashed_address: keccak256_address(&rows[i].0.address), hashed_slot: keccak256_word(&rows[i].0.slot) };
            pairs.push((key, rows[i].1));
            proof {
                assert(rows@[i as int].0 == srows[i as int].0 && rows@[i as int].1.image() == srows[i as int].1.image());
                assert(pairs@ =~= hashed_storage_changes(srows.subrange(0, i + 1)));
            }
            i = i + 1;
        }
        proof {
            assert(srows.subrange(0, i as int) =~= srows);
        }
        let firsts = first_per_key(&pairs);
        let mut targets: Vec<(HashedSlotKey, Option<U256>)> = Vec::new();
        let mut j: usize = 0;
        while j < firsts.len()
            invariant
                j <= firsts@.len(),
                targets@.len() == j,
                forall|x: int| 0 <= x < j ==> #[trigger] targets@[x] == (firsts@[x].0, slot_row(firsts@[x].1)),
            decreases firsts@.len() - j,
        {
            let (k, v) = firsts[j];
            let row = if v.is_zero() {
                None
            } else {
                Some(v)
            };
            targets.push((k, row));
            j = j + 1;
        }
        proof {
            assert forall|x: int, y: int| 0 <= x < y < targets@.len() implies targets@[x].0 != targets@[y].0 by {
                assert(targets@[x].0 == firsts@[x].0);
                assert(targets@[y].0 == firsts@[y].0);
            }
        }
        revert_rows(&mut self.tx.hashed_storages, &targets);
        proof {
            assert forall|k: HashedSlotKey| #[trigger] self.tx.hashed_storages.lookup(k) == match first_value(pairs@, k) {
                Some(v) => slot_row(v),
                None => old(self).tx.hashed_storages.lookup(k),
            } by {
                crate::provider::lemma_reverted_firsts(firsts@, targets@, pairs@, k);
                if first_value(pairs@, k) is Some {
                    let x = choose|x: int| 0 <= x < targets@.len() && targets@[x].0 == k;
                    assert(targets@[x] == (firsts@[x].0, slot_row(firsts@[x].1)));
                }
            }
        }
        firsts
    }
}

} // verus!
