//! Appending executed blocks with their state changes.
use crate::changes::{apply_rows, apply_updates, first_value};
use crate::checkpoints::PruneModes;
use crate::errors::ProviderError;
use crate::hashing::{hashed_account_rows, hashed_storage_rows};
use crate::models::{Account, BlockNumberAddress, BlockNumberSlot, Receipt, SlotKey};
use crate::primitives::{Address, U256};
use crate::provider::{account_change_bounds, next_key_after, storage_change_bounds, account_after_revert, slot_after_revert, slot_row, DatabaseProvider, SealedBlockWithSenders};
use crate::stages::moved_checkpoint;
use crate::checkpoints::StageId;
use crate::table::Table;
use crate::history::{account_blocks, blocks_of, key_history, slot_blocks};
use vstd::prelude::*;

verus! {

/// The state that executing a range of blocks produced: the change-set rows
/// (each with the value before the change), the new plain values, and the
/// receipts by transaction number.
pub struct StateChanges {
    pub account_changes: Vec<(BlockNumberAddress, Option<Account>)>,
    pub storage_changes: Vec<(BlockNumberSlot, U256)>,
    pub accounts: Vec<(Address, Option<Account>)>,
    pub storage: Vec<(SlotKey, U256)>,
    pub receipts: Vec<(u64, Receipt)>,
}

/// Storage values as plain rows: zero removes the slot.
pub open spec fn storage_rows(entries: Seq<(SlotKey, U256)>) -> Seq<(SlotKey, Option<U256>)> {
    Seq::new(entries.len(), |i: int| (entries[i].0, slot_row(entries[i].1)))
}

fn storage_updates(entries: &Vec<(SlotKey, U256)>) -> (r: Vec<(SlotKey, Option<U256>)>)
    ensures
        r@ == storage_rows(entries@),
{
    let mut r: Vec<(SlotKey, Option<U256>)> = Vec::new();
    let mut i: usize = 0;
    while i < entries.len()
        invariant
            i <= entries@.len(),
            r@ == storage_rows(entries@.subrange(0, i as int)),
        decreases entries@.len() - i,
    {
        let (k, v) = entries[i];
        let row = if v.is_zero() {
            None
        } else {
            Some(v)
        };
        r.push((k, row));
        proof {
            assert(r@ =~= storage_rows(entries@.subrange(0, i + 1)));
        }
        i = i + 1;
    }
    proof {
        assert(entries@.subrange(0, i as int) =~= entries@);
    }
    r
}

/// `m` with each row stored in order (a later row for a key wins).
pub open spec fn put_all<K, V>(m: Map<K, V>, rows: Seq<(K, V)>) -> Map<K, V>
    decreases rows.len(),
{
    if rows.len() == 0 {
        m
    } else {
        put_all(m, rows.drop_last()).insert(rows.last().0, rows.last().1)
    }
}

fn put_rows<K: crate::table::TableKey, V: Copy>(table: &mut Table<K, V>, rows: &Vec<(K, V)>)
    requires
        old(table).wf(),
    ensures
        final(table).wf(),
        final(table).view() == put_all(old(table).view(), rows@),
{
    let mut i: usize = 0;
    while i < rows.len()
        invariant
            table.wf(),
            i <= rows@.len(),
            table.view() == put_all(old(table).view(), rows@.subrange(0, i as int)),
        decreases rows@.len() - i,
    {
        let (k, v) = rows[i];
        table.put(k, v);
        proof {
            assert(rows@.subrange(0, i + 1).drop_last() =~= rows@.subrange(0, i as int));
        }
        i = i + 1;
    }
    proof {
        assert(rows@.subrange(0, i as int) =~= rows@);
    }
}

fn put_receipts(table: &mut Table<u64, Receipt>, receipts: Vec<(u64, Receipt)>)
    requires
        old(table).wf(),
    ensures
        final(table).wf(),
        final(table).view() == put_all(old(table).view(), receipts@),
{
    let ghost all = receipts@;
    let n = receipts.len();
    let mut rest = receipts;
    let mut i: usize = 0;
    while i < n
        invariant
            table.wf(),
            n == all.len(),
            i <= n,
            rest@ == all.subrange(i as int, n as int),
            table.view() == put_all(old(table).view(), all.subrange(0, i as int)),
        decreases n - i,
    {
        let (k, v) = rest.remove(0);
        proof {
            assert((k, v) == all[i as int]);
            assert(rest@ =~= all.subrange(i + 1, n as int));
        }
        table.put(k, v);
        proof {
            assert(all.subrange(0, i + 1).drop_last() =~= all.subrange(0, i as int));
        }
        i = i + 1;
    }
    proof {
        assert(all.subrange(0, i as int) =~= all);
    }
}

/// No two blocks share a number.
pub open spec fn numbers_distinct(blocks: Seq<SealedBlockWithSenders>) -> bool {
    forall|i: int, j: int| 0 <= i < j < blocks.len() ==> blocks[i].header.number != blocks[j].header.number
}

/// The block's hash, header and body indices are in the tables.
pub open spec fn block_written(p: &DatabaseProvider, b: SealedBlockWithSenders) -> bool {
    &&& p.tx.canonical_headers.lookup(b.header.number) == Some(b.hash)
    &&& p.tx.headers.lookup(b.header.number) == Some(b.header)
    &&& p.tx.block_body_indices.lookup(b.header.number) matches Some(x) && x.tx_count == b.body@.len()
}

/// The transaction counts of blocks.
pub open spec fn block_counts(blocks: Seq<SealedBlockWithSenders>) -> Seq<int> {
    Seq::new(blocks.len(), |i: int| blocks[i].body@.len() as int)
}

/// Inserting blocks with these transaction counts, the next free number
/// being `next`, never passes `u64::MAX`.
pub open spec fn counts_fit(next: int, counts: Seq<int>) -> bool
    decreases counts.len(),
{
    if counts.len() == 0 {
        true
    } else {
        next <= u64::MAX && next + counts[0] <= u64::MAX + 1 && counts_fit(next + counts[0], counts.drop_first())
    }
}

pub proof fn lemma_next_key_unique(m: Map<u64, u64>, a: int, b: int)
    requires
        next_key_after(m, a),
        next_key_after(m, b),
    ensures
        a == b,
{
    if a < b {
        assert(m.contains_key((b - 1) as u64));
    } else if b < a {
        assert(m.contains_key((a - 1) as u64));
    }
}

/// The value stored under `k`, if any.
pub open spec fn map_lookup<K, V>(m: Map<K, V>, k: K) -> Option<V> {
    if m.contains_key(k) {
        Some(m[k])
    } else {
        None
    }
}

/// Applying rows leaves every key that no row names as it was.
pub proof fn lemma_apply_rows_untouched<K, V>(m: Map<K, V>, rows: Seq<(K, Option<V>)>, k: K)
    requires
        forall|i: int| 0 <= i < rows.len() ==> rows[i].0 != k,
    ensures
        map_lookup(apply_rows(m, rows), k) == map_lookup(m, k),
    decreases rows.len(),
{
    if rows.len() > 0 {
        lemma_apply_rows_untouched(m, rows.drop_last(), k);
        assert(rows.last().0 != k);
    }
}

/// The round trip of applying a block range's state and unwinding it, on one
/// table (plain accounts, or the hashed accounts): if the new values were
/// written over `before`, and the range's change rows record, for every key
/// they name, its value before the range, and name every key that was
/// written, then reverting each key to its earliest recorded value gives back
/// `before`.
pub proof fn lemma_unwind_restores_rows<K, V>(
    before: Map<K, V>,
    written: Seq<(K, Option<V>)>,
    changes: Seq<(K, Option<V>)>,
)
    requires
        forall|k: K| #[trigger] first_value(changes, k) matches Some(v) ==> v == map_lookup(before, k),
        forall|k: K| (exists|i: int| 0 <= i < written.len() && written[i].0 == k) ==> #[trigger] first_value(changes, k) is Some,
    ensures
        forall|k: K| #[trigger] first_value(changes, k) is None ==> map_lookup(apply_rows(before, written), k) == map_lookup(before, k),
        forall|a: K| match first_value(changes, a) {
            Some(v) => v,
            None => map_lookup(apply_rows(before, written), a),
        } == #[trigger] map_lookup(before, a),
{
    assert forall|k: K| #[trigger] first_value(changes, k) is None implies map_lookup(apply_rows(before, written), k) == map_lookup(before, k) by {
        assert forall|i: int| 0 <= i < written.len() implies written[i].0 != k by {
            if written[i].0 == k {
                assert(exists|j: int| 0 <= j < written.len() && written[j].0 == k);
            }
        }
        lemma_apply_rows_untouched(before, written, k);
    }
}

/// The round trip on plain accounts, as `account_after_revert` states it.
pub proof fn lemma_unwind_restores_accounts(
    before: Map<Address, Account>,
    written: Seq<(Address, Option<Account>)>,
    changes: Seq<(Address, Option<Account>)>,
)
    requires
        forall|a: Address| #[trigger] first_value(changes, a) matches Some(v) ==> v == map_lookup(before, a),
        forall|a: Address| (exists|i: int| 0 <= i < written.len() && written[i].0 == a) ==> #[trigger] first_value(changes, a) is Some,
    ensures
        forall|a: Address| #[trigger] account_after_revert(changes, map_lookup(apply_rows(before, written), a), a) == map_lookup(before, a),
{
    lemma_unwind_restores_rows(before, written, changes);
    assert forall|a: Address| #[trigger] account_after_revert(changes, map_lookup(apply_rows(before, written), a), a) == map_lookup(before, a) by {
        assert(match first_value(changes, a) {
            Some(v) => v,
            None => map_lookup(apply_rows(before, written), a),
        } == map_lookup(before, a));
    }
}

/// The same round trip on plain storage, where a zero value is no row.
pub proof fn lemma_unwind_restores_storage(
    before: Map<SlotKey, U256>,
    written: Seq<(SlotKey, U256)>,
    changes: Seq<(SlotKey, U256)>,
)
    requires
        forall|k: SlotKey| #[trigger] first_value(changes, k) matches Some(v) ==> slot_row(v) == map_lookup(before, k),
        forall|k: SlotKey| (exists|i: int| 0 <= i < written.len() && written[i].0 == k) ==> #[trigger] first_value(changes, k) is Some,
    ensures
        forall|k: SlotKey| #[trigger] slot_after_revert(changes, map_lookup(apply_rows(before, storage_rows(written)), k), k) == map_lookup(before, k),
{
    assert forall|k: SlotKey| #[trigger] slot_after_revert(changes, map_lookup(apply_rows(before, storage_rows(written)), k), k) == map_lookup(before, k) by {
        if first_value(changes, k) is None {
            assert forall|i: int| 0 <= i < storage_rows(written).len() implies storage_rows(written)[i].0 != k by {
                if written[i].0 == k {
                    assert(exists|j: int| 0 <= j < written.len() && written[j].0 == k);
                }
            }
            lemma_apply_rows_untouched(before, storage_rows(written), k);
        }
    }
}

impl DatabaseProvider {
    /// The state changes of one block whose execution left the given
    /// accounts and slots with these values, when the values before it are
    /// not otherwise known: each change row records the plain-state value from
    /// before the block (absent account, or zero slot).
    pub fn changes_from_plain(&self, block_number: u64, accounts: &Vec<(Address, Option<Account>)>, storage: &Vec<(SlotKey, U256)>, receipts: Vec<(u64, Receipt)>) -> (r: StateChanges)
        requires
            self.wf(),
        ensures
            r.accounts@ == accounts@,
            r.storage@ == storage@,
            r.receipts@ == receipts@,
            r.account_changes@.len() == accounts@.len(),
            forall|i: int| 0 <= i < accounts@.len() ==> #[trigger] r.account_changes@[i] == (
                BlockNumberAddress { block_number, address: accounts@[i].0 },
                self.tx.plain_account_state.lookup(accounts@[i].0),
            ),
            r.storage_changes@.len() == storage@.len(),
            forall|i: int| 0 <= i < storage@.len() ==> #[trigger] r.storage_changes@[i] == (
                BlockNumberSlot { block_number, address: storage@[i].0.address, slot: storage@[i].0.slot },
                match self.tx.plain_storage_state.lookup(storage@[i].0) {
                    Some(v) => v,
                    None => U256 { hi: 0, lo: 0 },
                },
            ),
    {
        let mut account_changes: Vec<(BlockNumberAddress, Option<Account>)> = Vec::new();
        let mut i: usize = 0;
        while i < accounts.len()
            invariant
                self.wf(),
                i <= accounts@.len(),
                account_changes@.len() == i,
                forall|x: int| 0 <= x < i ==> #[trigger] account_changes@[x] == (
                    BlockNumberAddress { block_number, address: accounts@[x].0 },
                    self.tx.plain_account_state.lookup(accounts@[x].0),
                ),
            decreases accounts@.len() - i,
        {
            let a = accounts[i].0;
            let before = match self.tx.plain_account_state.get(&a) {
                Some(acc) => Some(*acc),
                None => None,
            };
            account_changes.push((BlockNumberAddress { block_number, address: a }, before));
            i = i + 1;
        }
        let mut storage_changes: Vec<(BlockNumberSlot, U256)> = Vec::new();
        let mut i: usize = 0;
        while i < storage.len()
            invariant
                self.wf(),
                i <= storage@.len(),
                storage_changes@.len() == i,
                forall|x: int| 0 <= x < i ==> #[trigger] storage_changes@[x] == (
                    BlockNumberSlot { block_number, address: storage@[x].0.address, slot: storage@[x].0.slot },
                    match self.tx.plain_storage_state.lookup(storage@[x].0) {
                        Some(v) => v,
                        None => U256 { hi: 0, lo: 0 },
                    },
                ),
            decreases storage@.len() - i,
        {
            let k = storage[i].0;
            let before = match self.tx.plain_storage_state.get(&k) {
                Some(v) => *v,
                None => U256::zero(),
            };
            storage_changes.push((BlockNumberSlot { block_number, address: k.address, slot: k.slot }, before));
            i = i + 1;
        }
        StateChanges {
            account_changes,
            storage_changes,
            accounts: crate::models::copy_vec(accounts),
            storage: crate::models::copy_vec(storage),
            receipts,
        }
    }

    /// Writes the state that executing blocks produced: change-set rows,
    /// plain accounts and storage (an absent account or a zero slot is
    /// removed), and receipts.
    pub fn write_state_changes(&mut self, state: StateChanges)
        requires
            old(self).wf(),
        ensures
            final(self).wf(),
            final(self).static_file_provider == old(self).static_file_provider,
            final(self).chain_spec == old(self).chain_spec,
            final(self).tx.same_blocks(&old(self).tx),
            final(self).tx.same_indices(&old(self).tx),
            final(self).tx.plain_account_state.view() == apply_rows(old(self).tx.plain_account_state.view(), state.accounts@),
            final(self).tx.plain_storage_state.view() == apply_rows(old(self).tx.plain_storage_state.view(), storage_rows(state.storage@)),
            final(self).tx.account_changesets.view() == put_all(old(self).tx.account_changesets.view(), state.account_changes@),
            final(self).tx.storage_changesets.view() == put_all(old(self).tx.storage_changesets.view(), state.storage_changes@),
            final(self).tx.receipts.view() == put_all(old(self).tx.receipts.view(), state.receipts@),
    {
        put_rows(&mut self.tx.account_changesets, &state.account_changes);
        put_rows(&mut self.tx.storage_changesets, &state.storage_changes);
        apply_updates(&mut self.tx.plain_account_state, &state.accounts);
        let storage = storage_updates(&state.storage);
        apply_updates(&mut self.tx.plain_storage_state, &storage);
        put_receipts(&mut self.tx.receipts, state.receipts);
    }

    /// Appends executed blocks: each block is inserted, the state they
    /// produced is written, the hashed mirror takes the new values, the
    /// history indices gain the range's changes, and every stage moves to the
    /// last block. An empty list changes nothing.
    pub fn append_blocks_with_state(&mut self, blocks: Vec<SealedBlockWithSenders>, state: StateChanges, prune_modes: Option<PruneModes>) -> (r: Result<(), ProviderError>)
        requires
            old(self).wf(),
            forall|i: int| 0 <= i < blocks@.len() ==> (#[trigger] blocks@[i]).senders@.len() == blocks@[i].body@.len(),
        ensures
            final(self).wf(),
            final(self).static_file_provider == old(self).static_file_provider,
            final(self).chain_spec == old(self).chain_spec,
            blocks@.len() == 0 ==> r is Ok && final(self).tx == old(self).tx,
            r is Err ==> r == Err::<(), ProviderError>(ProviderError::TransactionNumberOverflow),
            forall|next: int| next_key_after(old(self).tx.transaction_blocks.view(), next) ==> (r is Ok <==> counts_fit(next, block_counts(blocks@))),
            r is Ok ==> forall|i: int| 0 <= i < blocks@.len() && numbers_distinct(blocks@) ==> #[trigger] block_written(final(self), blocks@[i]),
            r is Ok ==> forall|n: u64| (forall|i: int| 0 <= i < blocks@.len() ==> blocks@[i].header.number != n) ==> {
                &&& #[trigger] final(self).tx.canonical_headers.lookup(n) == old(self).tx.canonical_headers.lookup(n)
                &&& final(self).tx.headers.lookup(n) == old(self).tx.headers.lookup(n)
                &&& final(self).tx.block_body_indices.lookup(n) == old(self).tx.block_body_indices.lookup(n)
            },
            r is Ok && blocks@.len() > 0 ==> {
                &&& final(self).tx.account_changesets.view() == put_all(old(self).tx.account_changesets.view(), state.account_changes@)
                &&& final(self).tx.storage_changesets.view() == put_all(old(self).tx.storage_changesets.view(), state.storage_changes@)
                &&& final(self).tx.receipts.view() == put_all(old(self).tx.receipts.view(), state.receipts@)
                &&& ({
                    let (alo, ahi) = account_change_bounds(blocks@[0].header.number, blocks@.last().header.number);
                    let arows = account_blocks(final(self).tx.account_changesets.rows_between(alo, ahi));
                    forall|a: Address| #[trigger] key_history(&final(self).tx.accounts_history, a)
                        == key_history(&old(self).tx.accounts_history, a) + blocks_of(arows, a)
                })
                &&& ({
                    let (slo, shi) = storage_change_bounds(blocks@[0].header.number, blocks@.last().header.number);
                    let srows = slot_blocks(final(self).tx.storage_changesets.rows_between(slo, shi));
                    forall|k: SlotKey| #[trigger] key_history(&final(self).tx.storages_history, k)
                        == key_history(&old(self).tx.storages_history, k) + blocks_of(srows, k)
                })
                &&& final(self).tx.plain_account_state.view() == apply_rows(old(self).tx.plain_account_state.view(), state.accounts@)
                &&& final(self).tx.plain_storage_state.view() == apply_rows(old(self).tx.plain_storage_state.view(), storage_rows(state.storage@))
                &&& final(self).tx.hashed_accounts.view() == apply_rows(old(self).tx.hashed_accounts.view(), hashed_account_rows(state.accounts@))
                &&& final(self).tx.hashed_storages.view() == apply_rows(old(self).tx.hashed_storages.view(), hashed_storage_rows(state.storage@))
                &&& forall|id: StageId| #[trigger] final(self).tx.stage_checkpoints.lookup(id)
                    == Some(moved_checkpoint(old(self).tx.stage_checkpoints.lookup(id), blocks@.last().header.number, false))
            },
    {
        let n = blocks.len();
        if n == 0 {
            return Ok(());
        }
        let first = blocks[0].header.number;
        let last = blocks[n - 1].header.number;
        let ghost o = self.tx;
        let ghost all = block_counts(blocks@);
        let start_next: u128 = match self.next_tx_num() {
            Some(x) => x as u128,
            None => u64::MAX as u128 + 1,
        };
        let ghost mut next: int = start_next as int;
        proof {
            if start_next == u64::MAX as u128 + 1 {
                assert forall|k: u64| #[trigger] self.tx.transaction_blocks.view().contains_key(k) implies k < next by {}
            }
            assert(next_key_after(self.tx.transaction_blocks.view(), next));
            assert forall|m: int| next_key_after(o.transaction_blocks.view(), m) implies m == next by {
                lemma_next_key_unique(o.transaction_blocks.view(), m, next);
            }
            assert(block_counts(blocks@).subrange(0, n as int) =~= all);
        }
        let mut rest = blocks;
        let mut done: usize = 0;
        while rest.len() > 0
            invariant
                n > 0,
                n == blocks@.len(),
                all == block_counts(blocks@),
                done + rest@.len() == n,
                rest@ == blocks@.subrange(done as int, n as int),
                self.wf(),
                self.static_file_provider == old(self).static_file_provider,
                self.chain_spec == old(self).chain_spec,
                self.tx.same_state(&o),
                self.tx.same_indices(&o),
                self.tx.receipts == o.receipts,
                o == old(self).tx,
                forall|i: int| 0 <= i < done && numbers_distinct(blocks@) ==> #[trigger] block_written(self, blocks@[i]),
                forall|k: u64| (forall|i: int| 0 <= i < done ==> blocks@[i].header.number != k) ==> {
                    &&& #[trigger] self.tx.canonical_headers.lookup(k) == o.canonical_headers.lookup(k)
                    &&& self.tx.headers.lookup(k) == o.headers.lookup(k)
                    &&& self.tx.block_body_indices.lookup(k) == o.block_body_indices.lookup(k)
                },
                next_key_after(self.tx.transaction_blocks.view(), next),
                forall|m: int| next_key_after(o.transaction_blocks.view(), m) ==> m == start_next as int,
                counts_fit(start_next as int, all) == counts_fit(next, all.subrange(done as int, n as int)),
                forall|i: int| 0 <= i < rest@.len() ==> (#[trigger] rest@[i]).senders@.len() == rest@[i].body@.len(),
            decreases rest@.len(),
        {
            let ghost before = rest@;
            let block = rest.remove(0);
            let ghost c = block.body@.len() as int;
            let ghost t0 = self.tx.transaction_blocks.view();
            proof {
                assert(before[0] == block);
                assert(forall|i: int| 0 <= i < rest@.len() ==> rest@[i] == before[i + 1]);
                assert(all[done as int] == c);
                assert(all.subrange(done as int, n as int).drop_first() =~= all.subrange(done + 1, n as int));
                assert(rest@ =~= blocks@.subrange(done + 1, n as int));
            }
            let ghost pre = *self;
            let ghost blk = blocks@[done as int];
            proof {
                assert(before[0] == blocks@[done as int]);
            }
            let res = self.insert_block(block, prune_modes);
            proof {
                let nx = next;
                if nx <= u64::MAX {
                    assert(!t0.contains_key(u64::MAX)) by {
                        if t0.contains_key(u64::MAX) {
                            assert(u64::MAX < nx);
                        }
                    }
                } else {
                    assert(t0.contains_key(u64::MAX));
                }
                assert forall|m: int| next_key_after(t0, m) implies m == nx by {
                    lemma_next_key_unique(t0, m, nx);
                }
            }
            match res {
                Ok(b) => {
                    proof {
                        lemma_next_key_unique(t0, b.first_tx_num as int, next);
                        let nn = next + c;
                        if c > 0 {
                            assert forall|k: u64| #[trigger] self.tx.transaction_blocks.view().contains_key(k) implies k < nn by {
                                if k != (b.first_tx_num + b.tx_count - 1) as u64 {
                                    assert(t0.contains_key(k));
                                }
                            }
                            assert(self.tx.transaction_blocks.view().contains_key((nn - 1) as u64));
                        }
                        next = nn;
                        let bn = blk.header.number;
                        assert forall|i: int| 0 <= i < done + 1 && numbers_distinct(blocks@) implies #[trigger] block_written(self, blocks@[i]) by {
                            if i < done {
                                assert(block_written(&pre, blocks@[i]));
                                assert(blocks@[i].header.number != bn);
                            }
                        }
                        assert forall|k: u64| (forall|i: int| 0 <= i < done + 1 ==> blocks@[i].header.number != k) implies {
                            &&& #[trigger] self.tx.canonical_headers.lookup(k) == o.canonical_headers.lookup(k)
                            &&& self.tx.headers.lookup(k) == o.headers.lookup(k)
                            &&& self.tx.block_body_indices.lookup(k) == o.block_body_indices.lookup(k)
                        } by {
                            assert(blocks@[done as int].header.number != k);
                            assert(pre.tx.canonical_headers.lookup(k) == o.canonical_headers.lookup(k));
                        }
                    }
                },
                Err(e) => {
                    proof {
                        let sq = all.subrange(done as int, n as int);
                        assert(sq[0] == c);
                        assert(!counts_fit(next, sq));
                    }
                    return Err(e);
                },
            }
            done = done + 1;
        }
        proof {
            assert(all.subrange(done as int, n as int) =~= Seq::<int>::empty());
        }
        let ghost after_blocks = *self;
        let accounts = crate::models::copy_vec(&state.accounts);
        let storage = crate::models::copy_vec(&state.storage);
        self.write_state_changes(state);
        self.insert_account_for_hashing(&accounts);
        self.insert_storage_for_hashing(&storage);
        self.update_history_indices(first, last);
        self.update_pipeline_stages(last, false);
        proof {
            assert forall|i: int| 0 <= i < blocks@.len() && numbers_distinct(blocks@) implies #[trigger] block_written(self, blocks@[i]) by {
                assert(block_written(&after_blocks, blocks@[i]));
            }
        }
        Ok(())
    }
}

} // verus!
