//! The database provider: the chain tables, the static files, and the reads and
//! writes that keep them consistent.
use crate::changes::{distinct_keys, first_per_key, first_value, firsts_of, revert_rows};
use crate::checkpoints::{mode_is_full, prunes_fully, ChainSpec, PruneCheckpoint, PruneModes, PruneSegment, StageCheckpoint, StageId};
use crate::errors::ProviderError;
use crate::models::{Account, BlockBodyIndices, BlockNumberAddress, BlockNumberSlot, HashedSlotKey, Header, Receipt, SlotKey, TransactionSigned, TransactionSignedNoHash, Withdrawal};
use crate::primitives::{pow2_256, Address, B256, U256};
use crate::sharded::Shard;
use crate::static_file::{in_static, served_by_static, StaticFileProvider, StaticFileSegment};
use crate::table::{same_rows, Table, TableKey, TableValue};
use vstd::prelude::*;

verus! {

/// The key-value tables of the chain database.
pub struct Tables {
    pub canonical_headers: Table<u64, B256>,
    pub headers: Table<u64, Header>,
    pub header_numbers: Table<B256, u64>,
    pub header_terminal_difficulties: Table<u64, U256>,
    pub block_body_indices: Table<u64, BlockBodyIndices>,
    pub block_ommers: Table<u64, Vec<Header>>,
    pub block_withdrawals: Table<u64, Vec<Withdrawal>>,
    pub transactions: Table<u64, TransactionSignedNoHash>,
    pub transaction_senders: Table<u64, Address>,
    pub transaction_hash_numbers: Table<B256, u64>,
    pub transaction_blocks: Table<u64, u64>,
    pub receipts: Table<u64, Receipt>,
    pub plain_account_state: Table<Address, Account>,
    pub plain_storage_state: Table<SlotKey, U256>,
    pub account_changesets: Table<BlockNumberAddress, Option<Account>>,
    pub storage_changesets: Table<BlockNumberSlot, U256>,
    pub accounts_history: Table<Address, Vec<Shard>>,
    pub storages_history: Table<SlotKey, Vec<Shard>>,
    pub hashed_accounts: Table<B256, Account>,
    pub hashed_storages: Table<HashedSlotKey, U256>,
    pub stage_checkpoints: Table<StageId, StageCheckpoint>,
    pub stage_checkpoint_progresses: Table<StageId, Vec<u8>>,
    pub prune_checkpoints: Table<PruneSegment, PruneCheckpoint>,
}

impl Tables {
    pub open spec fn wf(&self) -> bool {
        &&& self.canonical_headers.wf()
        &&& self.headers.wf()
        &&& self.header_numbers.wf()
        &&& self.header_terminal_difficulties.wf()
        &&& self.block_body_indices.wf()
        &&& self.block_ommers.wf()
        &&& self.block_withdrawals.wf()
        &&& self.transactions.wf()
        &&& self.transaction_senders.wf()
        &&& self.transaction_hash_numbers.wf()
        &&& self.transaction_blocks.wf()
        &&& self.receipts.wf()
        &&& self.plain_account_state.wf()
        &&& self.plain_storage_state.wf()
        &&& self.account_changesets.wf()
        &&& self.storage_changesets.wf()
        &&& self.accounts_history.wf()
        &&& self.storages_history.wf()
        &&& self.hashed_accounts.wf()
        &&& self.hashed_storages.wf()
        &&& self.stage_checkpoints.wf()
        &&& self.stage_checkpoint_progresses.wf()
        &&& self.prune_checkpoints.wf()
    }

    /// The block tables are the same in both.
    pub open spec fn same_chain(&self, o: &Tables) -> bool {
        &&& self.canonical_headers == o.canonical_headers
        &&& self.headers == o.headers
        &&& self.header_numbers == o.header_numbers
        &&& self.header_terminal_difficulties == o.header_terminal_difficulties
        &&& self.block_body_indices == o.block_body_indices
        &&& self.block_ommers == o.block_ommers
        &&& self.block_withdrawals == o.block_withdrawals
        &&& self.transactions == o.transactions
        &&& self.transaction_senders == o.transaction_senders
        &&& self.transaction_hash_numbers == o.transaction_hash_numbers
        &&& self.transaction_blocks == o.transaction_blocks
        &&& self.receipts == o.receipts
    }

    /// The block tables other than receipts are the same in both.
    pub open spec fn same_blocks(&self, o: &Tables) -> bool {
        &&& self.canonical_headers == o.canonical_headers
        &&& self.headers == o.headers
        &&& self.header_numbers == o.header_numbers
        &&& self.header_terminal_difficulties == o.header_terminal_difficulties
        &&& self.block_body_indices == o.block_body_indices
        &&& self.block_ommers == o.block_ommers
        &&& self.block_withdrawals == o.block_withdrawals
        &&& self.transactions == o.transactions
        &&& self.transaction_senders == o.transaction_senders
        &&& self.transaction_hash_numbers == o.transaction_hash_numbers
        &&& self.transaction_blocks == o.transaction_blocks
    }

    /// Plain state and change sets are the same in both.
    pub open spec fn same_state(&self, o: &Tables) -> bool {
        &&& self.plain_account_state == o.plain_account_state
        &&& self.plain_storage_state == o.plain_storage_state
        &&& self.account_changesets == o.account_changesets
        &&& self.storage_changesets == o.storage_changesets
    }

    /// History indices, hashed state and checkpoints are the same in both.
    pub open spec fn same_indices(&self, o: &Tables) -> bool {
        &&& self.accounts_history == o.accounts_history
        &&& self.storages_history == o.storages_history
        &&& self.hashed_accounts == o.hashed_accounts
        &&& self.hashed_storages == o.hashed_storages
        &&& self.stage_checkpoints == o.stage_checkpoints
        &&& self.stage_checkpoint_progresses == o.stage_checkpoint_progresses
        &&& self.prune_checkpoints == o.prune_checkpoints
    }

    /// Empty tables.
    pub fn new() -> (r: Tables)
        ensures
            r.wf(),
            r.canonical_headers.view().dom().len() == 0,
            r.transactions.view().dom().len() == 0,
            r.block_body_indices.view().dom().len() == 0,
    {
        let r = Tables {
            canonical_headers: Table::new(),
            headers: Table::new(),
            header_numbers: Table::new(),
            header_terminal_difficulties: Table::new(),
            block_body_indices: Table::new(),
            block_ommers: Table::new(),
            block_withdrawals: Table::new(),
            transactions: Table::new(),
            transaction_senders: Table::new(),
            transaction_hash_numbers: Table::new(),
            transaction_blocks: Table::new(),
            receipts: Table::new(),
            plain_account_state: Table::new(),
            plain_storage_state: Table::new(),
            account_changesets: Table::new(),
            storage_changesets: Table::new(),
            accounts_history: Table::new(),
            storages_history: Table::new(),
            hashed_accounts: Table::new(),
            hashed_storages: Table::new(),
            stage_checkpoints: Table::new(),
            stage_checkpoint_progresses: Table::new(),
            prune_checkpoints: Table::new(),
        };
        proof {
            assert(r.canonical_headers.view().dom() =~= Set::<u64>::empty());
            assert(r.transactions.view().dom() =~= Set::<u64>::empty());
            assert(r.block_body_indices.view().dom() =~= Set::<u64>::empty());
        }
        r
    }
}

/// A block with its hash and the senders of its transactions, one per
/// transaction.
pub struct SealedBlockWithSenders {
    pub header: Header,
    pub hash: B256,
    pub body: Vec<TransactionSigned>,
    pub senders: Vec<Address>,
    pub ommers: Vec<Header>,
    pub withdrawals: Option<Vec<Withdrawal>>,
}

/// A provider over one database transaction: the tables, the shared static
/// files and the chain parameters.
pub struct DatabaseProvider {
    pub tx: Tables,
    pub static_file_provider: StaticFileProvider,
    pub chain_spec: ChainSpec,
}

/// The number that follows the highest key of a table of transaction
/// numbers, or zero for an empty table.
pub open spec fn next_key_after(m: Map<u64, u64>, n: int) -> bool {
    &&& 0 <= n <= u64::MAX + 1
    &&& forall|k: u64| #[trigger] m.contains_key(k) ==> k < n
    &&& (n == 0 || m.contains_key((n - 1) as u64))
}


/// An account changed in a block range: its value before the range and its
/// value now.
#[derive(Clone, Copy, Debug, PartialEq, Eq, Structural)]
pub struct AccountState {
    pub address: Address,
    pub old: Option<Account>,
    pub new: Option<Account>,
}

/// A storage slot changed in a block range: its value before the range and its
/// value now (zero for an absent slot).
#[derive(Clone, Copy, Debug, PartialEq, Eq, Structural)]
pub struct SlotState {
    pub key: SlotKey,
    pub old: U256,
    pub new: U256,
}

/// The state changes of a block range, with the rows to revert them block by
/// block and the receipts of each block.
pub struct BundleStateWithReceipts {
    pub accounts: Vec<AccountState>,
    pub storage: Vec<SlotState>,
    pub account_reverts: Vec<(BlockNumberAddress, Option<Account>)>,
    pub storage_reverts: Vec<(BlockNumberSlot, U256)>,
    pub receipts: Vec<Vec<Receipt>>,
    pub first_block: u64,
}

impl BundleStateWithReceipts {
    pub fn empty(first_block: u64) -> (r: BundleStateWithReceipts)
        ensures
            r.accounts@.len() == 0,
            r.storage@.len() == 0,
            r.account_reverts@.len() == 0,
            r.storage_reverts@.len() == 0,
            r.receipts@.len() == 0,
            r.first_block == first_block,
    {
        BundleStateWithReceipts {
            accounts: Vec::new(),
            storage: Vec::new(),
            account_reverts: Vec::new(),
            storage_reverts: Vec::new(),
            receipts: Vec::new(),
            first_block,
        }
    }
}

pub open spec fn min_address() -> Address {
    Address { hi: 0, mid: 0, lo: 0 }
}

pub open spec fn max_address() -> Address {
    Address { hi: u64::MAX, mid: u64::MAX, lo: u32::MAX }
}

pub open spec fn max_word() -> B256 {
    B256 { a: u64::MAX, b: u64::MAX, c: u64::MAX, d: u64::MAX }
}

/// The lowest and highest account-change keys of blocks `start..=end`.
pub open spec fn account_change_bounds(start: u64, end: u64) -> (int, int) {
    (
        (BlockNumberAddress { block_number: start, address: min_address() }).rank(),
        (BlockNumberAddress { block_number: end, address: max_address() }).rank(),
    )
}

/// The lowest and highest storage-change keys of blocks `start..=end`.
pub open spec fn storage_change_bounds(start: u64, end: u64) -> (int, int) {
    (
        (BlockNumberSlot { block_number: start, address: min_address(), slot: B256 { a: 0, b: 0, c: 0, d: 0 } }).rank(),
        (BlockNumberSlot { block_number: end, address: max_address(), slot: max_word() }).rank(),
    )
}

/// Account-change rows as (address, value before the change).
pub open spec fn account_pairs(rows: Seq<(BlockNumberAddress, Option<Account>)>) -> Seq<(Address, Option<Account>)> {
    Seq::new(rows.len(), |i: int| (rows[i].0.address, rows[i].1))
}

/// Storage-change rows as (slot, value before the change).
pub open spec fn slot_pairs(rows: Seq<(BlockNumberSlot, U256)>) -> Seq<(SlotKey, U256)> {
    Seq::new(rows.len(), |i: int| (SlotKey { address: rows[i].0.address, slot: rows[i].0.slot }, rows[i].1))
}

/// Receipt `j` of a block is stored.
pub open spec fn receipt_at(t: &Table<u64, Receipt>, body: BlockBodyIndices, j: int) -> bool {
    body.first_tx_num + j <= u64::MAX && t.view().contains_key((body.first_tx_num + j) as u64)
}

/// The stored receipt of transaction `t` has the image of `rc`.
pub open spec fn receipt_is(table: &Table<u64, Receipt>, t: u64, rc: Receipt) -> bool {
    table.lookup(t) matches Some(x) && x.image() == rc.image()
}

/// Every receipt of a block is stored.
pub open spec fn receipts_stored(t: &Table<u64, Receipt>, body: BlockBodyIndices) -> bool {
    forall|j: int| 0 <= j < body.tx_count ==> #[trigger] receipt_at(t, body, j)
}

/// A storage value as a row: none for zero.
pub open spec fn slot_row(v: U256) -> Option<U256> {
    if v.value() == 0 {
        None
    } else {
        Some(v)
    }
}

/// What plain account state holds for `a` after reverting the changes `pairs`
/// (earliest first) on top of `before`.
pub open spec fn account_after_revert(pairs: Seq<(Address, Option<Account>)>, before: Option<Account>, a: Address) -> Option<Account> {
    match first_value(pairs, a) {
        Some(v) => v,
        None => before,
    }
}

/// What plain storage holds for `k` after reverting the changes `pairs`.
pub open spec fn slot_after_revert(pairs: Seq<(SlotKey, U256)>, before: Option<U256>, k: SlotKey) -> Option<U256> {
    match first_value(pairs, k) {
        Some(v) => slot_row(v),
        None => before,
    }
}

pub fn account_key_pairs(rows: &Vec<(BlockNumberAddress, Option<Account>)>) -> (r: Vec<(Address, Option<Account>)>)
    ensures
        r@ == account_pairs(rows@),
{
    let mut r: Vec<(Address, Option<Account>)> = Vec::new();
    let mut i: usize = 0;
    while i < rows.len()
        invariant
            i <= rows@.len(),
            r@ == account_pairs(rows@.subrange(0, i as int)),
        decreases rows@.len() - i,
    {
        r.push((rows[i].0.address, rows[i].1));
        proof {
            assert(r@ =~= account_pairs(rows@.subrange(0, i + 1)));
        }
        i = i + 1;
    }
    proof {
        assert(rows@.subrange(0, i as int) =~= rows@);
    }
    r
}

pub fn slot_key_pairs(rows: &Vec<(BlockNumberSlot, U256)>) -> (r: Vec<(SlotKey, U256)>)
    ensures
        r@ == slot_pairs(rows@),
{
    let mut r: Vec<(SlotKey, U256)> = Vec::new();
    let mut i: usize = 0;
    while i < rows.len()
        invariant
            i <= rows@.len(),
            r@ == slot_pairs(rows@.subrange(0, i as int)),
        decreases rows@.len() - i,
    {
        r.push((SlotKey { address: rows[i].0.address, slot: rows[i].0.slot }, rows[i].1));
        proof {
            assert(r@ =~= slot_pairs(rows@.subrange(0, i + 1)));
        }
        i = i + 1;
    }
    proof {
        assert(rows@.subrange(0, i as int) =~= rows@);
    }
    r
}

fn slot_targets(firsts: &Vec<(SlotKey, U256)>) -> (r: Vec<(SlotKey, Option<U256>)>)
    ensures
        r@.len() == firsts@.len(),
        forall|i: int| 0 <= i < r@.len() ==> #[trigger] r@[i] == (firsts@[i].0, slot_row(firsts@[i].1)),
{
    let mut r: Vec<(SlotKey, Option<U256>)> = Vec::new();
    let mut i: usize = 0;
    while i < firsts.len()
        invariant
            i <= firsts@.len(),
            r@.len() == i,
            forall|j: int| 0 <= j < i ==> #[trigger] r@[j] == (firsts@[j].0, slot_row(firsts@[j].1)),
        decreases firsts@.len() - i,
    {
        let (k, v) = firsts[i];
        let row = if v.is_zero() {
            None
        } else {
            Some(v)
        };
        r.push((k, row));
        i = i + 1;
    }
    r
}

/// Reverting to the earliest change of each key gives, key by key, the value
/// before the earliest change.
pub proof fn lemma_reverted_firsts<K, V, W>(firsts: Seq<(K, V)>, targets: Seq<(K, W)>, rows: Seq<(K, V)>, k: K)
    requires
        firsts_of(firsts, rows),
        targets.len() == firsts.len(),
        forall|i: int| 0 <= i < targets.len() ==> #[trigger] targets[i].0 == firsts[i].0,
    ensures
        (exists|i: int| 0 <= i < targets.len() && targets[i].0 == k) <==> first_value(rows, k) is Some,
        first_value(rows, k) is Some ==> {
            let i = choose|i: int| 0 <= i < targets.len() && targets[i].0 == k;
            first_value(rows, k) == Some(firsts[i].1) && targets[i].0 == k
        },
{
    if first_value(rows, k) is Some {
        let j = choose|j: int| 0 <= j < firsts.len() && firsts[j].0 == k;
        assert(targets[j].0 == k);
        let i = choose|i: int| 0 <= i < targets.len() && targets[i].0 == k;
        assert(firsts[i].0 == k);
        assert(first_value(rows, firsts[i].0) == Some(firsts[i].1));
    }
    if exists|i: int| 0 <= i < targets.len() && targets[i].0 == k {
        let i = choose|i: int| 0 <= i < targets.len() && targets[i].0 == k;
        assert(firsts[i].0 == k);
        assert(first_value(rows, firsts[i].0) == Some(firsts[i].1));
    }
}

/// `m` with `vals[i]` stored under `first + i`, inserted in order.
pub open spec fn put_run<V>(m: Map<u64, V>, first: int, vals: Seq<V>) -> Map<u64, V>
    decreases vals.len(),
{
    if vals.len() == 0 {
        m
    } else {
        put_run(m, first, vals.drop_last()).insert((first + vals.len() - 1) as u64, vals.last())
    }
}

/// `m` with each transaction's hash mapped to its number `first + i`,
/// inserted in order.
pub open spec fn put_hash_run(m: Map<B256, u64>, first: int, txs: Seq<TransactionSigned>) -> Map<
    B256,
    u64,
>
    decreases txs.len(),
{
    if txs.len() == 0 {
        m
    } else {
        put_hash_run(m, first, txs.drop_last()).insert(txs.last().hash, (first + txs.len() - 1) as u64)
    }
}

/// The stored form of each transaction: its encoding without the hash.
pub open spec fn stored_forms(txs: Seq<TransactionSigned>) -> Seq<TransactionSignedNoHash> {
    Seq::new(txs.len(), |i: int| TransactionSignedNoHash { encoded: txs[i].encoded })
}

pub open spec fn td_value(td: Option<U256>) -> int {
    match td {
        Some(t) => t.value(),
        None => 0,
    }
}

fn put_senders(table: &mut Table<u64, Address>, first: u64, senders: &Vec<Address>)
    requires
        old(table).wf(),
        first + senders@.len() <= u64::MAX + 1,
    ensures
        final(table).wf(),
        final(table).view() == put_run(old(table).view(), first as int, senders@),
{
    let mut i: usize = 0;
    while i < senders.len()
        invariant
            table.wf(),
            i <= senders@.len(),
            first + senders@.len() <= u64::MAX + 1,
            table.view() == put_run(old(table).view(), first as int, senders@.subrange(0, i as int)),
        decreases senders@.len() - i,
    {
        table.put(first + i as u64, senders[i]);
        proof {
            assert(senders@.subrange(0, i + 1).drop_last() =~= senders@.subrange(0, i as int));
        }
        i = i + 1;
    }
    proof {
        assert(senders@.subrange(0, i as int) =~= senders@);
    }
}

fn put_hash_numbers(table: &mut Table<B256, u64>, first: u64, body: &Vec<TransactionSigned>)
    requires
        old(table).wf(),
        first + body@.len() <= u64::MAX + 1,
    ensures
        final(table).wf(),
        final(table).view() == put_hash_run(old(table).view(), first as int, body@),
{
    let mut i: usize = 0;
    while i < body.len()
        invariant
            table.wf(),
            i <= body@.len(),
            first + body@.len() <= u64::MAX + 1,
            table.view() == put_hash_run(old(table).view(), first as int, body@.subrange(0, i as int)),
        decreases body@.len() - i,
    {
        table.put(body[i].hash, first + i as u64);
        proof {
            assert(body@.subrange(0, i + 1).drop_last() =~= body@.subrange(0, i as int));
        }
        i = i + 1;
    }
    proof {
        assert(body@.subrange(0, i as int) =~= body@);
    }
}

fn put_transactions(
    table: &mut Table<u64, TransactionSignedNoHash>,
    first: u64,
    body: Vec<TransactionSigned>,
)
    requires
        old(table).wf(),
        first + body@.len() <= u64::MAX + 1,
    ensures
        final(table).wf(),
        final(table).view() == put_run(old(table).view(), first as int, stored_forms(body@)),
{
    let ghost all = body@;
    let n = body.len();
    let mut rest = body;
    let mut i: usize = 0;
    while i < n
        invariant
            table.wf(),
            n == all.len(),
            i <= n,
            first + n <= u64::MAX + 1,
            rest@ == all.subrange(i as int, n as int),
            table.view() == put_run(old(table).view(), first as int, stored_forms(all.subrange(0, i as int))),
        decreases n - i,
    {
        let tx = rest.remove(0);
        proof {
            assert(tx == all[i as int]);
            assert(rest@ =~= all.subrange(i + 1, n as int));
        }
        table.put(first + i as u64, TransactionSignedNoHash { encoded: tx.encoded });
        proof {
            assert(stored_forms(all.subrange(0, i + 1)).drop_last() =~= stored_forms(all.subrange(0, i as int)));
        }
        i = i + 1;
    }
    proof {
        assert(all.subrange(0, n as int) =~= all);
    }
}

impl DatabaseProvider {
    pub fn new(tx: Tables, static_file_provider: StaticFileProvider, chain_spec: ChainSpec) -> (r:
        DatabaseProvider)
        ensures
            r.tx == tx,
            r.static_file_provider == static_file_provider,
            r.chain_spec == chain_spec,
    {
        DatabaseProvider { tx, static_file_provider, chain_spec }
    }

    pub open spec fn wf(&self) -> bool {
        self.tx.wf()
    }

    /// A provider over a read-write transaction.
    pub fn new_rw(tx: Tables, static_file_provider: StaticFileProvider, chain_spec: ChainSpec) -> (r:
        DatabaseProvider)
        ensures
            r.tx == tx,
            r.static_file_provider == static_file_provider,
            r.chain_spec == chain_spec,
    {
        DatabaseProvider { tx, static_file_provider, chain_spec }
    }

    pub fn static_file_provider(&self) -> (r: &StaticFileProvider)
        ensures
            *r == self.static_file_provider,
    {
        &self.static_file_provider
    }

    pub fn chain_spec(&self) -> (r: &ChainSpec)
        ensures
            *r == self.chain_spec,
    {
        &self.chain_spec
    }

    pub fn tx_ref(&self) -> (r: &Tables)
        ensures
            *r == self.tx,
    {
        &self.tx
    }

    /// Gives up the provider, keeping its tables.
    pub fn into_tx(self) -> (r: Tables)
        ensures
            r == self.tx,
    {
        self.tx
    }

    /// Ends the transaction: the tables and the static files it wrote are
    /// what later providers see.
    pub fn commit(self) -> (r: (Tables, StaticFileProvider))
        ensures
            r.0 == self.tx,
            r.1 == self.static_file_provider,
    {
        (self.tx, self.static_file_provider)
    }

    pub open spec fn static_head(&self, segment: StaticFileSegment) -> Option<u64> {
        self.static_file_provider.highest_spec(segment)
    }

    /// The header of block `n`, from the static files if they hold it, else
    /// from the tables.
    pub open spec fn header_spec(&self, n: u64) -> Option<Header> {
        if in_static(self.static_head(StaticFileSegment::Headers), n) {
            Some(self.static_file_provider.headers@[n as int].header)
        } else {
            self.tx.headers.lookup(n)
        }
    }

    /// The canonical hash of block `n`, routed like the header.
    pub open spec fn block_hash_spec(&self, n: u64) -> Option<B256> {
        if in_static(self.static_head(StaticFileSegment::Headers), n) {
            Some(self.static_file_provider.headers@[n as int].hash)
        } else {
            self.tx.canonical_headers.lookup(n)
        }
    }

    /// The total difficulty at block `n`: the final one from the merge on,
    /// otherwise routed like the header.
    pub open spec fn header_td_spec(&self, n: u64) -> Option<U256> {
        match self.chain_spec.final_paris_td_spec(n) {
            Some(td) => Some(td),
            None => if in_static(self.static_head(StaticFileSegment::Headers), n) {
                Some(self.static_file_provider.headers@[n as int].total_difficulty)
            } else {
                self.tx.header_terminal_difficulties.lookup(n)
            },
        }
    }

    pub fn header_by_number(&self, n: u64) -> (r: Option<Header>)
        requires
            self.wf(),
        ensures
            r == self.header_spec(n),
    {
        let head = self.static_file_provider.get_highest_static_file_block(StaticFileSegment::Headers);
        if served_by_static(head, n) {
            match self.static_file_provider.static_header(n) {
                Some(h) => Some(h.header),
                None => None,
            }
        } else {
            match self.tx.headers.get(&n) {
                Some(h) => Some(*h),
                None => None,
            }
        }
    }

    pub fn block_hash(&self, n: u64) -> (r: Option<B256>)
        requires
            self.wf(),
        ensures
            r == self.block_hash_spec(n),
    {
        let head = self.static_file_provider.get_highest_static_file_block(StaticFileSegment::Headers);
        if served_by_static(head, n) {
            match self.static_file_provider.static_header(n) {
                Some(h) => Some(h.hash),
                None => None,
            }
        } else {
            match self.tx.canonical_headers.get(&n) {
                Some(h) => Some(*h),
                None => None,
            }
        }
    }

    pub fn header_td_by_number(&self, n: u64) -> (r: Option<U256>)
        requires
            self.wf(),
        ensures
            r == self.header_td_spec(n),
    {
        if let Some(td) = self.chain_spec.final_paris_total_difficulty(n) {
            return Some(td);
        }
        let head = self.static_file_provider.get_highest_static_file_block(StaticFileSegment::Headers);
        if served_by_static(head, n) {
            match self.static_file_provider.static_header(n) {
                Some(h) => Some(h.total_difficulty),
                None => None,
            }
        } else {
            match self.tx.header_terminal_difficulties.get(&n) {
                Some(td) => Some(*td),
                None => None,
            }
        }
    }

    pub fn block_number(&self, hash: &B256) -> (r: Option<u64>)
        requires
            self.wf(),
        ensures
            r == self.tx.header_numbers.lookup(*hash),
    {
        match self.tx.header_numbers.get(hash) {
            Some(n) => Some(*n),
            None => None,
        }
    }

    pub fn block_body_indices(&self, n: u64) -> (r: Option<BlockBodyIndices>)
        requires
            self.wf(),
        ensures
            r == self.tx.block_body_indices.lookup(n),
    {
        match self.tx.block_body_indices.get(&n) {
            Some(b) => Some(*b),
            None => None,
        }
    }

    /// Writes a block across the tables: its header, hash and total
    /// difficulty, its ommers and withdrawals when there are any, its
    /// transactions under consecutive numbers from the next free one, their
    /// senders and hash lookups unless pruned entirely, its body indices, and
    /// the anchor from its last transaction number to the block.
    pub fn insert_block(&mut self, block: SealedBlockWithSenders, prune_modes: Option<PruneModes>) -> (r:
        Result<BlockBodyIndices, ProviderError>)
        requires
            old(self).wf(),
            block.senders@.len() == block.body@.len(),
        ensures
            final(self).wf(),
            final(self).static_file_provider == old(self).static_file_provider,
            final(self).chain_spec == old(self).chain_spec,
            r is Err ==> r == Err::<BlockBodyIndices, ProviderError>(
                ProviderError::TransactionNumberOverflow,
            ),
            r is Err <==> (old(self).tx.transaction_blocks.view().contains_key(u64::MAX) || exists|n: int|
                next_key_after(old(self).tx.transaction_blocks.view(), n) && n + block.body@.len()
                    > u64::MAX + 1),
            r matches Ok(b) ==> {
                let n = block.header.number;
                let o = old(self).tx;
                let t = final(self).tx;
                &&& b.tx_count == block.body@.len()
                &&& next_key_after(o.transaction_blocks.view(), b.first_tx_num as int)
                &&& t.canonical_headers.view() == o.canonical_headers.view().insert(n, block.hash)
                &&& t.headers.view() == o.headers.view().insert(n, block.header)
                &&& t.header_numbers.view() == o.header_numbers.view().insert(block.hash, n)
                &&& t.header_terminal_difficulties.lookup(n) matches Some(td) && td.value() == if n
                    == 0 {
                    block.header.difficulty.value()
                } else {
                    (td_value(old(self).header_td_spec((n - 1) as u64))
                        + block.header.difficulty.value()) % pow2_256()
                }
                &&& t.header_terminal_difficulties.view().remove(n)
                    == o.header_terminal_difficulties.view().remove(n)
                &&& t.block_ommers.view() == if block.ommers@.len() > 0 {
                    o.block_ommers.view().insert(n, block.ommers)
                } else {
                    o.block_ommers.view()
                }
                &&& t.block_withdrawals.view() == match block.withdrawals {
                    Some(w) => if w@.len() > 0 {
                        o.block_withdrawals.view().insert(n, w)
                    } else {
                        o.block_withdrawals.view()
                    },
                    None => o.block_withdrawals.view(),
                }
                &&& t.transactions.view() == put_run(
                    o.transactions.view(),
                    b.first_tx_num as int,
                    stored_forms(block.body@),
                )
                &&& t.transaction_senders.view() == if prune_modes matches Some(m)
                    && prunes_fully(m.sender_recovery) {
                    o.transaction_senders.view()
                } else {
                    put_run(o.transaction_senders.view(), b.first_tx_num as int, block.senders@)
                }
                &&& t.transaction_hash_numbers.view() == if prune_modes matches Some(m)
                    && prunes_fully(m.transaction_lookup) {
                    o.transaction_hash_numbers.view()
                } else {
                    put_hash_run(o.transaction_hash_numbers.view(), b.first_tx_num as int, block.body@)
                }
                &&& t.block_body_indices.view() == o.block_body_indices.view().insert(n, b)
                &&& t.transaction_blocks.view() == if b.tx_count > 0 {
                    o.transaction_blocks.view().insert((b.first_tx_num + b.tx_count - 1) as u64, n)
                } else {
                    o.transaction_blocks.view()
                }
                &&& t.receipts == o.receipts
                &&& t.plain_account_state == o.plain_account_state
                &&& t.plain_storage_state == o.plain_storage_state
                &&& t.account_changesets == o.account_changesets
                &&& t.storage_changesets == o.storage_changesets
                &&& t.accounts_history == o.accounts_history
                &&& t.storages_history == o.storages_history
                &&& t.hashed_accounts == o.hashed_accounts
                &&& t.hashed_storages == o.hashed_storages
                &&& t.stage_checkpoints == o.stage_checkpoints
                &&& t.prune_checkpoints == o.prune_checkpoints
                &&& t.stage_checkpoint_progresses == o.stage_checkpoint_progresses
            },
    {
        let first_tx_num = match self.next_tx_num() {
            Some(n) => n,
            None => {
                return Err(ProviderError::TransactionNumberOverflow);
            },
        };
        proof {
            assert forall|n: int| next_key_after(self.tx.transaction_blocks.view(), n) implies n
                == first_tx_num by {
                if n < first_tx_num {
                    if first_tx_num > 0 {
                        assert(self.tx.transaction_blocks.view().contains_key((first_tx_num - 1) as u64));
                    }
                } else if n > first_tx_num {
                    assert(self.tx.transaction_blocks.view().contains_key((n - 1) as u64));
                }
            }
        }
        if first_tx_num as u128 + block.body.len() as u128 > u64::MAX as u128 + 1 {
            proof {
                assert(next_key_after(self.tx.transaction_blocks.view(), first_tx_num as int)
                    && first_tx_num + block.body@.len() > u64::MAX + 1);
            }
            return Err(ProviderError::TransactionNumberOverflow);
        }
        let tx_count = block.body.len() as u64;
        let block_number = block.header.number;
        let ttd = if block_number == 0 {
            block.header.difficulty
        } else {
            let parent_td = match self.header_td_by_number(block_number - 1) {
                Some(td) => td,
                None => U256::zero(),
            };
            parent_td.wrapping_add(&block.header.difficulty)
        };
        self.tx.canonical_headers.put(block_number, block.hash);
        self.tx.headers.put(block_number, block.header);
        self.tx.header_numbers.put(block.hash, block_number);
        self.tx.header_terminal_difficulties.put(block_number, ttd);
        proof {
            assert(self.tx.header_terminal_difficulties.view().remove(block_number)
                =~= old(self).tx.header_terminal_difficulties.view().remove(block_number));
        }
        let SealedBlockWithSenders { header, hash, body, senders, ommers, withdrawals } = block;
        if ommers.len() > 0 {
            self.tx.block_ommers.put(block_number, ommers);
        }
        let sender_pruned = match prune_modes {
            Some(m) => mode_is_full(m.sender_recovery),
            None => false,
        };
        if !sender_pruned {
            put_senders(&mut self.tx.transaction_senders, first_tx_num, &senders);
        }
        let lookup_pruned = match prune_modes {
            Some(m) => mode_is_full(m.transaction_lookup),
            None => false,
        };
        if !lookup_pruned {
            put_hash_numbers(&mut self.tx.transaction_hash_numbers, first_tx_num, &body);
        }
        put_transactions(&mut self.tx.transactions, first_tx_num, body);
        match withdrawals {
            Some(w) => {
                if w.len() > 0 {
                    self.tx.block_withdrawals.put(block_number, w);
                }
            },
            None => {},
        }
        let indices = BlockBodyIndices { first_tx_num, tx_count };
        self.tx.block_body_indices.put(block_number, indices);
        if tx_count > 0 {
            self.tx.transaction_blocks.put(first_tx_num + (tx_count - 1), block_number);
        }
        Ok(indices)
    }

    /// Builds the state changes of blocks `start..=end` from the change sets
    /// and plain state, with the receipts of each block. When `unwind` is set,
    /// the change-set and receipt rows of the range are removed and plain
    /// state is put back to the values from before the range: each changed
    /// account and slot takes the value recorded by its earliest change in the
    /// range (absent for a missing account or a zero slot).
    pub fn unwind_or_peek_state(&mut self, start: u64, end: u64, unwind: bool) -> (r: BundleStateWithReceipts)
        requires
            old(self).wf(),
        ensures
            final(self).wf(),
            final(self).static_file_provider == old(self).static_file_provider,
            final(self).chain_spec == old(self).chain_spec,
            start <= end ==> r.first_block == start,
            final(self).tx.same_blocks(&old(self).tx),
            final(self).tx.same_indices(&old(self).tx),
            (start > end || !unwind) ==> final(self).tx == old(self).tx,
            start > end ==> r.accounts@.len() == 0 && r.storage@.len() == 0 && r.account_reverts@.len() == 0
                && r.storage_reverts@.len() == 0 && r.receipts@.len() == 0 && r.first_block == 0,
            ({
                let (alo, ahi) = account_change_bounds(start, end);
                let (slo, shi) = storage_change_bounds(start, end);
                let arows = old(self).tx.account_changesets.rows_between(alo, ahi);
                let srows = old(self).tx.storage_changesets.rows_between(slo, shi);
                start <= end ==> {
                    &&& ({
                        let bodies = old(self).tx.block_body_indices.rows_between(start as int, end as int);
                        &&& r.receipts@.len() == bodies.len()
                        &&& forall|i: int| 0 <= i < bodies.len() && receipts_stored(&old(self).tx.receipts, #[trigger] bodies[i].1) ==> {
                            &&& r.receipts@[i]@.len() == bodies[i].1.tx_count
                            &&& forall|j: int| 0 <= j < bodies[i].1.tx_count ==> receipt_is(&old(self).tx.receipts, (bodies[i].1.first_tx_num + j) as u64, #[trigger] r.receipts@[i]@[j])
                        }
                    })
                    &&& r.account_reverts@ == arows
                    &&& r.storage_reverts@ == srows
                    &&& forall|i: int| 0 <= i < r.accounts@.len() ==> {
                        let e = #[trigger] r.accounts@[i];
                        &&& e.new == old(self).tx.plain_account_state.lookup(e.address)
                        &&& (first_value(account_pairs(arows), e.address) == Some(e.old)
                            || (first_value(account_pairs(arows), e.address) is None && e.old == e.new))
                    }
                    &&& forall|a: Address| #[trigger] first_value(account_pairs(arows), a) is Some ==>
                        exists|i: int| 0 <= i < r.accounts@.len() && r.accounts@[i].address == a
                    &&& forall|i: int| 0 <= i < r.storage@.len() ==> {
                        let e = #[trigger] r.storage@[i];
                        &&& first_value(slot_pairs(srows), e.key) == Some(e.old)
                        &&& e.new == match old(self).tx.plain_storage_state.lookup(e.key) {
                            Some(v) => v,
                            None => U256 { hi: 0, lo: 0 },
                        }
                    }
                    &&& forall|k: SlotKey| #[trigger] first_value(slot_pairs(srows), k) is Some ==>
                        exists|i: int| 0 <= i < r.storage@.len() && r.storage@[i].key == k
                    &&& unwind ==> {
                        &&& ({
                            let bodies = old(self).tx.block_body_indices.rows_between(start as int, end as int);
                            bodies.len() > 0 ==> final(self).tx.receipts.rows() == old(self).tx.receipts.rows_outside(
                                bodies[0].1.first_tx_num as int,
                                bodies.last().1.last_tx_spec(),
                            )
                        })
                        &&& final(self).tx.account_changesets.rows() == old(self).tx.account_changesets.rows_outside(alo, ahi)
                        &&& final(self).tx.storage_changesets.rows() == old(self).tx.storage_changesets.rows_outside(slo, shi)
                        &&& forall|a: Address| #[trigger] final(self).tx.plain_account_state.lookup(a)
                            == account_after_revert(account_pairs(arows), old(self).tx.plain_account_state.lookup(a), a)
                        &&& forall|k: SlotKey| #[trigger] final(self).tx.plain_storage_state.lookup(k)
                            == slot_after_revert(slot_pairs(srows), old(self).tx.plain_storage_state.lookup(k), k)
                    }
                }
            }),
    {
        if start > end {
            return BundleStateWithReceipts::empty(0);
        }
        let ghost o = self.tx;
        let bodies = self.tx.block_body_indices.between(&start, &end);
        proof {
            let g = o.block_body_indices.rows_between(start as int, end as int);
            assert(same_rows(bodies@, o.block_body_indices.rows_between(start.rank(), end.rank())));
            assert forall|i: int| 0 <= i < bodies@.len() implies bodies@[i] == g[i] by {
                assert(bodies@[i].0 == g[i].0 && bodies@[i].1.image() == g[i].1.image());
            }
            assert(bodies@ =~= g);
        }
        let alo = BlockNumberAddress { block_number: start, address: Address { hi: 0, mid: 0, lo: 0 } };
        let ahi = BlockNumberAddress { block_number: end, address: Address { hi: u64::MAX, mid: u64::MAX, lo: u32::MAX } };
        let slo = BlockNumberSlot { block_number: start, address: Address { hi: 0, mid: 0, lo: 0 }, slot: B256 { a: 0, b: 0, c: 0, d: 0 } };
        let shi = BlockNumberSlot { block_number: end, address: Address { hi: u64::MAX, mid: u64::MAX, lo: u32::MAX }, slot: B256 { a: u64::MAX, b: u64::MAX, c: u64::MAX, d: u64::MAX } };
        let ghost arows = o.account_changesets.rows_between(alo.rank(), ahi.rank());
        let ghost srows = o.storage_changesets.rows_between(slo.rank(), shi.rank());
        let account_rows = if unwind {
            self.tx.account_changesets.take_between(&alo, &ahi)
        } else {
            let rows = self.tx.account_changesets.between(&alo, &ahi);
            proof {
                assert forall|i: int| 0 <= i < rows@.len() implies rows@[i] == arows[i] by {
                    assert(rows@[i].0 == arows[i].0 && rows@[i].1.image() == arows[i].1.image());
                }
                assert(rows@ =~= arows);
            }
            rows
        };
        let storage_rows = if unwind {
            self.tx.storage_changesets.take_between(&slo, &shi)
        } else {
            let rows = self.tx.storage_changesets.between(&slo, &shi);
            proof {
                assert forall|i: int| 0 <= i < rows@.len() implies rows@[i] == srows[i] by {
                    assert(rows@[i].0 == srows[i].0 && rows@[i].1.image() == srows[i].1.image());
                }
                assert(rows@ =~= srows);
            }
            rows
        };
        let apairs = account_key_pairs(&account_rows);
        let afirsts = first_per_key(&apairs);
        let spairs = slot_key_pairs(&storage_rows);
        let sfirsts = first_per_key(&spairs);

        let mut accounts: Vec<AccountState> = Vec::new();
        let mut i: usize = 0;
        while i < afirsts.len()
            invariant
                self.tx.plain_account_state == o.plain_account_state,
                o.plain_account_state.wf(),
                firsts_of(afirsts@, account_pairs(arows)),
                i <= afirsts@.len(),
                accounts@.len() == i,
                forall|j: int| 0 <= j < i ==> (#[trigger] accounts@[j]).address == afirsts@[j].0
                    && accounts@[j].old == afirsts@[j].1
                    && accounts@[j].new == o.plain_account_state.lookup(afirsts@[j].0),
            decreases afirsts@.len() - i,
        {
            let (a, old_value) = afirsts[i];
            let new_value = match self.tx.plain_account_state.get(&a) {
                Some(acc) => Some(*acc),
                None => None,
            };
            accounts.push(AccountState { address: a, old: old_value, new: new_value });
            i = i + 1;
        }
        let mut storage: Vec<SlotState> = Vec::new();
        let mut i: usize = 0;
        while i < sfirsts.len()
            invariant
                self.tx.plain_storage_state == o.plain_storage_state,
                o.plain_storage_state.wf(),
                firsts_of(sfirsts@, slot_pairs(srows)),
                i <= sfirsts@.len(),
                storage@.len() == i,
                forall|j: int| 0 <= j < i ==> (#[trigger] storage@[j]).key == sfirsts@[j].0
                    && storage@[j].old == sfirsts@[j].1
                    && storage@[j].new == match o.plain_storage_state.lookup(sfirsts@[j].0) {
                        Some(v) => v,
                        None => U256 { hi: 0, lo: 0 },
                    },
            decreases sfirsts@.len() - i,
        {
            let (k, old_value) = sfirsts[i];
            let new_value = match self.tx.plain_storage_state.get(&k) {
                Some(v) => *v,
                None => U256::zero(),
            };
            storage.push(SlotState { key: k, old: old_value, new: new_value });
            i = i + 1;
        }
        proof {
            assert forall|a: Address| #[trigger] first_value(account_pairs(arows), a) is Some implies
                exists|i: int| 0 <= i < accounts@.len() && accounts@[i].address == a by {
                let j = choose|j: int| 0 <= j < afirsts@.len() && afirsts@[j].0 == a;
                assert(accounts@[j].address == a);
            }
            assert forall|k: SlotKey| #[trigger] first_value(slot_pairs(srows), k) is Some implies
                exists|i: int| 0 <= i < storage@.len() && storage@[i].key == k by {
                let j = choose|j: int| 0 <= j < sfirsts@.len() && sfirsts@[j].0 == k;
                assert(storage@[j].key == k);
            }
            assert forall|i: int| 0 <= i < accounts@.len() implies first_value(account_pairs(arows), (#[trigger] accounts@[i]).address) == Some(accounts@[i].old) by {
                assert(first_value(account_pairs(arows), afirsts@[i].0) == Some(afirsts@[i].1));
            }
            assert forall|i: int| 0 <= i < storage@.len() implies first_value(slot_pairs(srows), (#[trigger] storage@[i]).key) == Some(storage@[i].old) by {
                assert(first_value(slot_pairs(srows), sfirsts@[i].0) == Some(sfirsts@[i].1));
            }
        }
        if unwind {
            revert_rows(&mut self.tx.plain_account_state, &afirsts);
            proof {
                assert forall|a: Address| #[trigger] self.tx.plain_account_state.lookup(a)
                    == account_after_revert(account_pairs(arows), o.plain_account_state.lookup(a), a) by {
                    lemma_reverted_firsts(afirsts@, afirsts@, account_pairs(arows), a);
                }
            }
            let targets = slot_targets(&sfirsts);
            proof {
                assert(distinct_keys(targets@)) by {
                    assert forall|x: int, y: int| 0 <= x < y < targets@.len() implies targets@[x].0 != targets@[y].0 by {
                        assert(targets@[x].0 == sfirsts@[x].0);
                        assert(targets@[y].0 == sfirsts@[y].0);
                    }
                }
            }
            revert_rows(&mut self.tx.plain_storage_state, &targets);
            proof {
                assert forall|k: SlotKey| #[trigger] self.tx.plain_storage_state.lookup(k)
                    == slot_after_revert(slot_pairs(srows), o.plain_storage_state.lookup(k), k) by {
                    lemma_reverted_firsts(sfirsts@, targets@, slot_pairs(srows), k);
                    if first_value(slot_pairs(srows), k) is Some {
                        let i = choose|i: int| 0 <= i < targets@.len() && targets@[i].0 == k;
                        assert(targets@[i] == (sfirsts@[i].0, slot_row(sfirsts@[i].1)));
                    }
                }
            }
        }
        let receipts = self.take_block_receipts(&bodies, unwind);
        BundleStateWithReceipts {
            accounts,
            storage,
            account_reverts: account_rows,
            storage_reverts: storage_rows,
            receipts,
            first_block: start,
        }
    }

    /// The receipts of the given blocks, one list per block, removed from the
    /// table when `take` is set.
    fn take_block_receipts(&mut self, bodies: &Vec<(u64, BlockBodyIndices)>, take: bool) -> (r: Vec<Vec<Receipt>>)
        requires
            old(self).wf(),
        ensures
            final(self).wf(),
            final(self).static_file_provider == old(self).static_file_provider,
            final(self).chain_spec == old(self).chain_spec,
            r@.len() == bodies@.len(),
            forall|i: int| 0 <= i < bodies@.len() && receipts_stored(&old(self).tx.receipts, #[trigger] bodies@[i].1) ==> {
                &&& r@[i]@.len() == bodies@[i].1.tx_count
                &&& forall|j: int| 0 <= j < bodies@[i].1.tx_count ==> receipt_is(&old(self).tx.receipts, (bodies@[i].1.first_tx_num + j) as u64, #[trigger] r@[i]@[j])
            },
            !take ==> final(self).tx == old(self).tx,
            take && bodies@.len() > 0 ==> final(self).tx.receipts.rows() == old(self).tx.receipts.rows_outside(
                bodies@[0].1.first_tx_num as int,
                bodies@.last().1.last_tx_spec(),
            ),
            take && bodies@.len() == 0 ==> final(self).tx.receipts == old(self).tx.receipts,
            final(self).tx.same_blocks(&old(self).tx),
            final(self).tx.same_indices(&old(self).tx),
            final(self).tx.plain_account_state == old(self).tx.plain_account_state,
            final(self).tx.plain_storage_state == old(self).tx.plain_storage_state,
            final(self).tx.account_changesets == old(self).tx.account_changesets,
            final(self).tx.storage_changesets == old(self).tx.storage_changesets,
    {
        let n = bodies.len();
        let mut out: Vec<Vec<Receipt>> = Vec::new();
        let mut b: usize = 0;
        while b < n
            invariant
                *self == *old(self),
                self.wf(),
                b <= n,
                n == bodies@.len(),
                out@.len() == b,
                forall|i: int| 0 <= i < b && receipts_stored(&old(self).tx.receipts, #[trigger] bodies@[i].1) ==> {
                    &&& out@[i]@.len() == bodies@[i].1.tx_count
                    &&& forall|j: int| 0 <= j < bodies@[i].1.tx_count ==> receipt_is(&old(self).tx.receipts, (bodies@[i].1.first_tx_num + j) as u64, #[trigger] out@[i]@[j])
                },
            decreases n - b,
        {
            let body = bodies[b].1;
            let mut block_receipts: Vec<Receipt> = Vec::new();
            let mut t: u64 = 0;
            while t < body.tx_count
                invariant
                    *self == *old(self),
                    self.wf(),
                    body == bodies@[b as int].1,
                    t <= body.tx_count,
                    (forall|j: int| 0 <= j < t ==> #[trigger] receipt_at(&old(self).tx.receipts, body, j)) ==> {
                        &&& block_receipts@.len() == t
                        &&& forall|j: int| 0 <= j < t ==> receipt_is(&old(self).tx.receipts, (body.first_tx_num + j) as u64, #[trigger] block_receipts@[j])
                    },
                decreases body.tx_count - t,
            {
                let ghost prev = block_receipts@;
                if body.first_tx_num <= u64::MAX - t {
                    match self.tx.receipts.get(&(body.first_tx_num + t)) {
                        Some(rc) => {
                            block_receipts.push(rc.duplicate());
                        },
                        None => {},
                    }
                }
                proof {
                    if forall|j: int| 0 <= j < t + 1 ==> #[trigger] receipt_at(&old(self).tx.receipts, body, j) {
                        assert(receipt_at(&old(self).tx.receipts, body, t as int));
                        assert forall|j: int| 0 <= j < t implies #[trigger] receipt_at(&old(self).tx.receipts, body, j) by {
                            assert(receipt_at(&old(self).tx.receipts, body, j));
                        }
                        assert forall|j: int| 0 <= j < t + 1 implies receipt_is(&old(self).tx.receipts, (body.first_tx_num + j) as u64, #[trigger] block_receipts@[j]) by {
                            if j < t {
                                assert(block_receipts@[j] == prev[j]);
                            }
                        }
                    }
                }
                t = t + 1;
            }
            proof {
                if receipts_stored(&old(self).tx.receipts, bodies@[b as int].1) {
                    assert forall|j: int| 0 <= j < t implies #[trigger] receipt_at(&old(self).tx.receipts, body, j) by {
                        assert(receipt_at(&old(self).tx.receipts, bodies@[b as int].1, j));
                    }
                }
            }
            let ghost prev_out = out@;
            out.push(block_receipts);
            proof {
                assert forall|i: int| 0 <= i < b + 1 && receipts_stored(&old(self).tx.receipts, #[trigger] bodies@[i].1) implies {
                    &&& out@[i]@.len() == bodies@[i].1.tx_count
                    &&& forall|j: int| 0 <= j < bodies@[i].1.tx_count ==> receipt_is(&old(self).tx.receipts, (bodies@[i].1.first_tx_num + j) as u64, #[trigger] out@[i]@[j])
                } by {
                    if i < b {
                        assert(out@[i] == prev_out[i]);
                    }
                }
            }
            b = b + 1;
        }
        if take && n > 0 {
            let first = bodies[0].1.first_tx_num;
            let last = bodies[n - 1].1.last_tx_num();
            self.tx.receipts.take_between(&first, &last);
        }
        out
    }

    /// The next free transaction number: one past the highest anchor in
    /// `TransactionBlocks`, or zero.
    pub fn next_tx_num(&self) -> (r: Option<u64>)
        requires
            self.wf(),
        ensures
            r matches Some(n) ==> next_key_after(self.tx.transaction_blocks.view(), n as int),
            r is None ==> self.tx.transaction_blocks.view().contains_key(u64::MAX),
    {
        match self.tx.transaction_blocks.last() {
            Some((k, _)) => {
                if k == u64::MAX {
                    None
                } else {
                    Some(k + 1)
                }
            },
            None => {
                proof {
                    assert forall|k: u64| #[trigger]
                        self.tx.transaction_blocks.view().contains_key(k) implies k < 0 by {
                        assert(self.tx.transaction_blocks.view().dom().contains(k));
                        assert(self.tx.transaction_blocks.view().dom().len() == 0);
                        vstd::set_lib::lemma_set_empty_equivalency_len(self.tx.transaction_blocks.view().dom());
                    }
                }
                Some(0)
            },
        }
    }
}

} // verus!
