use chain_provider::blocks::Chain;
use chain_provider::checkpoints::{ChainSpec, PruneMode, PruneModes, StageCheckpoint, StageId};
use chain_provider::errors::{ProviderError, RootMismatch};
use chain_provider::hashing::check_state_root;
use chain_provider::models::{
    Account, BlockBodyIndices, BlockNumberAddress, BlockNumberSlot, Header, HashedSlotKey, Receipt,
    SlotKey, TransactionSigned,
};
use chain_provider::primitives::{keccak256_address, keccak256_word, Address, B256, U256};
use chain_provider::provider::{DatabaseProvider, SealedBlockWithSenders, Tables};
use chain_provider::stages::{HeaderSyncMode, StateProviderChoice, SyncTarget};
use chain_provider::static_file::{split_range, StaticFileProvider};
use chain_provider::writer::StateChanges;

fn provider() -> DatabaseProvider {
    DatabaseProvider::new(Tables::new(), StaticFileProvider::new(), ChainSpec { paris: None, shanghai_time: None })
}

fn header(number: u64) -> Header {
    Header {
        parent_hash: B256::zero(),
        number,
        state_root: B256::new(0, 0, 7, number),
        difficulty: U256::from_u128(1),
        timestamp: number,
        base_fee_per_gas: Some(number),
        excess_blob_gas: None,
    }
}

fn block(number: u64, txs: u64) -> SealedBlockWithSenders {
    SealedBlockWithSenders {
        header: header(number),
        hash: B256::new(1, 0, 0, number),
        body: (0..txs)
            .map(|i| TransactionSigned { hash: tx_hash(number, i), encoded: vec![number as u8, i as u8, 0xc0] })
            .collect(),
        senders: (0..txs).map(|i| Address::new(3, number, i as u32)).collect(),
        ommers: vec![],
        withdrawals: None,
    }
}

fn tx_hash(number: u64, i: u64) -> B256 {
    chain_provider::primitives::keccak256(&vec![number as u8, i as u8, 0xc0])
}

fn account(balance: u128) -> Account {
    Account { nonce: 0, balance: U256::from_u128(balance), bytecode_hash: None }
}

fn no_state() -> StateChanges {
    StateChanges { account_changes: vec![], storage_changes: vec![], accounts: vec![], storage: vec![], receipts: vec![] }
}

fn receipt(gas: u64) -> Receipt {
    Receipt { success: true, cumulative_gas_used: gas, logs: vec![] }
}

const A: Address = Address { hi: 0xaa, mid: 0, lo: 1 };
const B: Address = Address { hi: 0xbb, mid: 0, lo: 2 };

#[test]
fn insert_assigns_consecutive_tx_numbers_and_unwind_reverts() {
    let mut p = provider();
    let blocks: Vec<SealedBlockWithSenders> = (1..=5).map(|n| block(n, 3)).collect();
    let mut account_changes = vec![(BlockNumberAddress { block_number: 1, address: A }, None)];
    for n in 2..=5u64 {
        account_changes.push((BlockNumberAddress { block_number: n, address: A }, Some(account((n as u128 - 1) * 10))));
    }
    let receipts = (0..15u64).map(|t| (t, receipt(t))).collect();
    let state = StateChanges {
        account_changes,
        storage_changes: vec![],
        accounts: vec![(A, Some(account(50)))],
        storage: vec![],
        receipts,
    };
    p.append_blocks_with_state(blocks, state, None).unwrap();

    assert_eq!(p.block_body_indices(3), Some(BlockBodyIndices { first_tx_num: 6, tx_count: 3 }));
    assert_eq!(p.tx.transaction_blocks.get(&14), Some(&5));
    assert_eq!(p.tx.transactions.len(), 15);
    let hashed_a = keccak256_address(&A);
    assert_eq!(p.tx.hashed_accounts.get(&hashed_a), Some(&account(50)));
    assert_eq!(p.get_stage_checkpoint(StageId::Finish).unwrap().block_number, 5);

    let sets = p.unwind_trie_inputs(3, 5);
    assert_eq!(sets.account_prefix_set, vec![hashed_a]);
    let parent_root = header(2).state_root;
    let chain: Chain = p.get_or_take_block_and_execution_range(3, 5, true, &vec![], parent_root).unwrap();
    assert_eq!(chain.blocks.len(), 3);
    assert_eq!(chain.blocks[0].body.len(), 3);
    assert_eq!(chain.execution_state.receipts.len(), 3);
    assert_eq!(p.last_block_number(), 2);
    assert_eq!(p.tx.transactions.len(), 6);
    assert_eq!(p.tx.hashed_accounts.get(&hashed_a), Some(&account(20)));
    assert_eq!(p.basic_account(&A), Some(account(20)));
    assert_eq!(p.tx.receipts.len(), 6);
    assert_eq!(p.block_body_indices(3), None);
    assert_eq!(p.get_stage_checkpoint(StageId::Finish).unwrap().block_number, 2);
    let shards = p.tx.accounts_history.get(&A).unwrap();
    assert_eq!(shards.len(), 1);
    assert_eq!(shards[0].list, vec![1, 2]);
    assert_eq!(shards[0].highest_block_number, u64::MAX);
}

#[test]
fn account_changes_record_previous_values_and_unwind() {
    let mut p = provider();
    p.insert_block(block(0, 0), None).unwrap();
    p.write_state_changes(StateChanges {
        account_changes: vec![],
        storage_changes: vec![],
        accounts: vec![(A, Some(account(10)))],
        storage: vec![],
        receipts: vec![],
    });
    p.insert_account_for_hashing(&vec![(A, Some(account(10)))]);
    let state = StateChanges {
        account_changes: vec![
            (BlockNumberAddress { block_number: 1, address: A }, Some(account(10))),
            (BlockNumberAddress { block_number: 1, address: B }, None),
        ],
        storage_changes: vec![],
        accounts: vec![(A, Some(account(20))), (B, Some(account(5)))],
        storage: vec![],
        receipts: vec![],
    };
    p.append_blocks_with_state(vec![block(1, 0)], state, None).unwrap();
    assert_eq!(p.account_block_changeset(1).len(), 2);
    assert!(p.account_block_changeset(1).contains(&(A, Some(account(10)))));
    assert!(p.account_block_changeset(1).contains(&(B, None)));

    let sets = p.unwind_trie_inputs(1, 1);
    assert_eq!(sets.destroyed_accounts, vec![keccak256_address(&B)]);
    p.get_or_take_block_and_execution_range(1, 1, true, &vec![], header(0).state_root).unwrap();
    assert_eq!(p.basic_account(&A), Some(account(10)));
    assert_eq!(p.basic_account(&B), None);
    assert_eq!(p.tx.hashed_accounts.get(&keccak256_address(&B)), None);
    assert_eq!(p.tx.hashed_accounts.get(&keccak256_address(&A)), Some(&account(10)));
}

#[test]
fn storage_toggle_is_removed_and_restored() {
    let mut p = provider();
    let s = B256::new(0, 0, 0, 9);
    let key = SlotKey { address: A, slot: s };
    let hashed = HashedSlotKey { hashed_address: keccak256_address(&A), hashed_slot: keccak256_word(&s) };
    p.insert_block(block(9, 0), None).unwrap();
    let state = StateChanges {
        account_changes: vec![],
        storage_changes: vec![
            (BlockNumberSlot { block_number: 10, address: A, slot: s }, U256::zero()),
            (BlockNumberSlot { block_number: 11, address: A, slot: s }, U256::from_u128(7)),
        ],
        accounts: vec![],
        storage: vec![(key, U256::zero())],
        receipts: vec![],
    };
    p.append_blocks_with_state(vec![block(10, 0), block(11, 0)], state, None).unwrap();
    assert_eq!(p.tx.plain_storage_state.get(&key), None);
    assert_eq!(p.tx.hashed_storages.get(&hashed), None);

    p.unwind_trie_inputs(11, 11);
    assert_eq!(p.tx.hashed_storages.get(&hashed), Some(&U256::from_u128(7)));
    p.get_or_take_block_and_execution_range(11, 11, true, &vec![], header(10).state_root).unwrap();
    assert_eq!(p.tx.plain_storage_state.get(&key), Some(&U256::from_u128(7)));
    assert_eq!(p.plain_state_storages(&vec![key]), vec![(key, U256::from_u128(7))]);
}

#[test]
fn interrupted_static_commit_is_cut_back() {
    let mut p = provider();
    for n in 0..=100u64 {
        p.static_file_provider.append_header(header(n), U256::from_u128(n as u128), B256::new(1, 0, 0, n)).unwrap();
    }
    assert_eq!(p.static_file_provider.get_highest_static_file_block(chain_provider::static_file::StaticFileSegment::Headers), Some(100));
    let gap = p.sync_gap(HeaderSyncMode::Continuous, 99).unwrap();
    assert_eq!(p.static_file_provider.headers.len(), 100);
    assert_eq!(gap.target, SyncTarget::TipNum(100));
    assert_eq!(gap.local_head.header.number, 99);
    assert_eq!(gap.local_head.hash, B256::new(1, 0, 0, 99));
}

#[test]
fn static_head_behind_tables_is_an_error() {
    let mut p = provider();
    for n in 0..=10u64 {
        p.static_file_provider.append_header(header(n), U256::zero(), B256::zero()).unwrap();
    }
    let r = p.sync_gap(HeaderSyncMode::Tip(B256::new(9, 9, 9, 9)), 20);
    assert_eq!(r.err(), Some(ProviderError::HeaderNotFound(11)));
    let ok = p.sync_gap(HeaderSyncMode::Tip(B256::new(9, 9, 9, 9)), 10).unwrap();
    assert_eq!(ok.target, SyncTarget::Tip(B256::new(9, 9, 9, 9)));
}

#[test]
fn root_mismatch_reports_range_end_and_hash() {
    let got = B256::new(1, 2, 3, 4);
    let expected = B256::new(5, 6, 7, 8);
    let end_hash = B256::new(0, 0, 0, 42);
    let r = check_state_root(got, expected, 42, end_hash);
    assert_eq!(
        r,
        Err(ProviderError::StateRootMismatch(RootMismatch { got, expected, block_number: 42, block_hash: end_hash }))
    );
    assert_eq!(check_state_root(got, got, 42, end_hash), Ok(()));
}

#[test]
fn unwind_with_wrong_root_is_refused() {
    let mut p = provider();
    p.insert_block(block(0, 0), None).unwrap();
    p.insert_block(block(1, 2), None).unwrap();
    let wrong = B256::new(9, 9, 9, 9);
    let r = p.get_or_take_block_and_execution_range(1, 1, true, &vec![], wrong);
    assert_eq!(
        r.err(),
        Some(ProviderError::UnwindStateRootMismatch(RootMismatch {
            got: wrong,
            expected: header(0).state_root,
            block_number: 0,
            block_hash: B256::new(1, 0, 0, 0),
        }))
    );
    assert_eq!(p.tx.transactions.len(), 2);
}

#[test]
fn total_difficulty_accumulates() {
    let mut p = provider();
    p.insert_block(block(0, 0), None).unwrap();
    p.insert_block(block(1, 0), None).unwrap();
    p.insert_block(block(2, 0), None).unwrap();
    assert_eq!(p.header_td_by_number(0), Some(U256::from_u128(1)));
    assert_eq!(p.header_td_by_number(2), Some(U256::from_u128(3)));
    assert_eq!(p.header_td(&B256::new(1, 0, 0, 2)), Some(U256::from_u128(3)));
}

#[test]
fn pruned_senders_and_lookups_are_not_written() {
    let mut p = provider();
    let modes = PruneModes { sender_recovery: Some(PruneMode::Full), transaction_lookup: Some(PruneMode::Full) };
    let b = p.insert_block(block(0, 2), Some(modes)).unwrap();
    assert_eq!(b, BlockBodyIndices { first_tx_num: 0, tx_count: 2 });
    assert_eq!(p.tx.transactions.len(), 2);
    assert_eq!(p.tx.transaction_senders.len(), 0);
    assert_eq!(p.tx.transaction_hash_numbers.len(), 0);
    assert_eq!(p.senders_to_recover(0, 1), vec![0, 1]);
    let missing = p.get_take_block_transaction_range(0, 0, false, &vec![(0, A)]);
    assert_eq!(missing.err(), Some(ProviderError::SenderRecoveryError));
    let found = p.get_take_block_transaction_range(0, 0, false, &vec![(0, A), (1, B)]).unwrap();
    assert_eq!(found[0].1[0].signer, A);
    assert_eq!(found[0].1[1].signer, B);
}

#[test]
fn transaction_lookup_by_hash_carries_block_meta() {
    let mut p = provider();
    p.insert_block(block(0, 1), None).unwrap();
    p.insert_block(block(1, 0), None).unwrap();
    p.insert_block(block(2, 3), None).unwrap();
    let (tx, meta) = p.transaction_by_hash_with_meta(&tx_hash(2, 1)).unwrap().unwrap();
    assert_eq!(tx.encoded, vec![2, 1, 0xc0]);
    assert_eq!(meta.block_number, 2);
    assert_eq!(meta.index, 1);
    assert_eq!(meta.block_hash, B256::new(1, 0, 0, 2));
    assert_eq!(meta.base_fee, Some(2));
    assert_eq!(p.transaction_block(0), Some(0));
    assert_eq!(p.transaction_block(1), Some(2));
    assert_eq!(p.transaction_by_hash_with_meta(&B256::new(7, 7, 7, 7)).unwrap(), None);
}

#[test]
fn transaction_hashes_do_not_depend_on_the_split() {
    let mut p = provider();
    p.insert_block(block(0, 4), None).unwrap();
    p.insert_block(block(1, 3), None).unwrap();
    let all = p.transaction_hashes_by_range(0, 7);
    assert_eq!(all.len(), 7);
    let mut parts = p.transaction_hashes_by_range(0, 3);
    parts.extend(p.transaction_hashes_by_range(3, 7));
    assert_eq!(all, parts);
    let expected = chain_provider::primitives::keccak256(&vec![1u8, 2, 0xc0]);
    assert_eq!(all[6], (expected, 6));
}

#[test]
fn pipeline_stages_move_together() {
    let mut p = provider();
    p.save_stage_checkpoint(StageId::Execution, StageCheckpoint { block_number: 4, unit_progress: Some(9) });
    p.update_pipeline_stages(7, false);
    assert_eq!(p.get_stage_checkpoint(StageId::Execution), Some(StageCheckpoint { block_number: 7, unit_progress: Some(9) }));
    assert_eq!(p.get_stage_checkpoint(StageId::Headers), Some(StageCheckpoint { block_number: 7, unit_progress: None }));
    p.update_pipeline_stages(3, true);
    assert_eq!(p.get_stage_checkpoint(StageId::Execution), Some(StageCheckpoint { block_number: 3, unit_progress: None }));
    assert_eq!(p.best_block_number(), 3);
}

#[test]
fn state_view_is_latest_only_at_the_tip() {
    let mut p = provider();
    p.insert_block(block(0, 0), None).unwrap();
    p.insert_block(block(1, 0), None).unwrap();
    p.update_pipeline_stages(1, false);
    assert_eq!(p.state_provider_by_block_number(1), StateProviderChoice::Latest);
    p.save_prune_checkpoint(
        chain_provider::checkpoints::PruneSegment::AccountHistory,
        chain_provider::checkpoints::PruneCheckpoint { block_number: Some(0), tx_number: None, prune_mode: PruneMode::Full },
    );
    assert_eq!(
        p.state_provider_by_block_number(0),
        StateProviderChoice::Historical { block_number: 1, lowest_available_account_history: Some(1), lowest_available_storage_history: None }
    );
}

#[test]
fn missing_transaction_is_a_body_count_error() {
    let mut p = provider();
    p.insert_block(block(0, 2), None).unwrap();
    p.tx.transactions.remove(&1);
    let stray = p.get_take_block_transaction_range(0, 0, false, &vec![]);
    assert_eq!(stray.err(), Some(ProviderError::BlockBodyTransactionCount));
    p.tx.transaction_senders.remove(&1);
    let r = p.get_take_block_transaction_range(0, 0, false, &vec![]);
    assert_eq!(r.err(), Some(ProviderError::BlockBodyTransactionCount));
}

#[test]
fn missing_sender_without_recovery_fails_and_changes_nothing() {
    let mut p = provider();
    p.insert_block(block(0, 2), None).unwrap();
    p.tx.transaction_senders.remove(&1);
    let r = p.get_take_block_transaction_range(0, 0, true, &vec![]);
    assert_eq!(r.err(), Some(ProviderError::SenderRecoveryError));
    assert_eq!(p.tx.transactions.len(), 2);
    let ok = p.get_take_block_transaction_range(0, 0, true, &vec![(1, B), (1, A)]).unwrap();
    assert_eq!(ok[0].1[0].signer, Address::new(3, 0, 0));
    assert_eq!(ok[0].1[1].signer, B);
    assert_eq!(p.tx.transactions.len(), 0);
    assert_eq!(p.tx.transaction_senders.len(), 0);
    assert_eq!(p.tx.transaction_hash_numbers.len(), 0);
    assert_eq!(p.tx.transaction_blocks.len(), 0);
}

#[test]
fn transaction_numbers_cannot_pass_the_maximum() {
    let mut p = provider();
    p.tx.transaction_blocks.put(u64::MAX, 0);
    assert_eq!(p.insert_block(block(1, 1), None), Err(ProviderError::TransactionNumberOverflow));
    let mut q = provider();
    q.tx.transaction_blocks.put(u64::MAX - 1, 0);
    assert_eq!(q.insert_block(block(1, 0), None), Ok(BlockBodyIndices { first_tx_num: u64::MAX, tx_count: 0 }));
    assert_eq!(q.insert_block(block(2, 2), None), Err(ProviderError::TransactionNumberOverflow));
}

#[test]
fn static_headers_allow_no_gaps() {
    let mut files = StaticFileProvider::new();
    assert_eq!(
        files.append_header(header(5), U256::zero(), B256::zero()),
        Err(ProviderError::UnexpectedStaticFileBlockNumber { expected: 0, got: 5 })
    );
    assert_eq!(files.append_header(header(0), U256::zero(), B256::zero()), Ok(()));
    files.prune_headers(3);
    assert!(files.headers.is_empty());
}

#[test]
fn reads_prefer_the_static_files() {
    let mut p = provider();
    p.insert_block(block(0, 1), None).unwrap();
    let mut moved = header(0);
    moved.timestamp = 99;
    p.static_file_provider.append_header(moved, U256::from_u128(5), B256::new(8, 8, 8, 8)).unwrap();
    assert_eq!(p.header_by_number(0).unwrap().timestamp, 99);
    assert_eq!(p.block_hash(0), Some(B256::new(8, 8, 8, 8)));
    assert_eq!(p.header_td_by_number(0), Some(U256::from_u128(5)));
    assert_eq!(p.header_by_number(1), None);
    assert_eq!(p.last_block_number(), 0);
    let block0 = p.block(0).unwrap();
    assert_eq!(block0.body.len(), 1);
    assert_eq!(p.count_entries(chain_provider::static_file::StaticFileSegment::Headers), 2);
}

#[test]
fn merge_fixes_difficulty_and_clears_ommers() {
    let mut p = DatabaseProvider::new(
        Tables::new(),
        StaticFileProvider::new(),
        ChainSpec {
            paris: Some(chain_provider::checkpoints::ParisSpec { block: 2, final_difficulty: U256::from_u128(100) }),
            shanghai_time: Some(3),
        },
    );
    let mut b = block(1, 0);
    b.ommers = vec![header(0)];
    p.insert_block(b, None).unwrap();
    assert_eq!(p.ommers(1).unwrap().len(), 1);
    assert_eq!(p.ommers(2).unwrap().len(), 0);
    assert_eq!(p.header_td_by_number(7), Some(U256::from_u128(100)));
    assert_eq!(p.withdrawals_by_block(1, 2), None);
    assert_eq!(p.withdrawals_by_block(1, 3), Some(vec![]));
}

#[test]
fn headers_are_read_while_the_predicate_holds() {
    let mut p = provider();
    for n in 0..5u64 {
        p.insert_block(block(n, 0), None).unwrap();
    }
    let heads = p.sealed_headers_while(1, 5, |h| h.header.timestamp < 3).unwrap();
    assert_eq!(heads.len(), 2);
    assert_eq!(heads[1].hash, B256::new(1, 0, 0, 2));
    assert_eq!(p.sealed_headers_while(3, 3, |_| true).unwrap().len(), 0);
    assert_eq!(p.headers_range(0, 10).len(), 5);
    assert_eq!(p.canonical_hashes_range(2, 4), vec![B256::new(1, 0, 0, 2), B256::new(1, 0, 0, 3)]);
}

#[test]
fn receipts_are_read_by_block_and_range() {
    let mut p = provider();
    let state = StateChanges {
        account_changes: vec![],
        storage_changes: vec![],
        accounts: vec![],
        storage: vec![],
        receipts: vec![(0, receipt(21)), (1, receipt(42)), (2, receipt(63))],
    };
    p.append_blocks_with_state(vec![block(0, 1), block(1, 2)], state, None).unwrap();
    assert_eq!(p.receipts_by_block(1), Some(vec![receipt(42), receipt(63)]));
    assert_eq!(p.receipts_by_tx_range(0, 2), vec![receipt(21), receipt(42)]);
    assert_eq!(p.receipt_by_hash(&tx_hash(1, 1)), Some(receipt(63)));
    assert_eq!(p.receipts_by_block(9), None);
    let all = p.transactions_by_block_range(0, 1);
    assert_eq!(all.len(), 2);
    assert_eq!(all[1].len(), 2);
    assert_eq!(p.senders_by_tx_range(0, 3), vec![Address::new(3, 0, 0), Address::new(3, 1, 0), Address::new(3, 1, 1)]);
}

#[test]
fn ranges_split_at_the_static_head() {
    assert_eq!(split_range(2, 10, Some(5)), ((2, 6), (6, 10)));
    assert_eq!(split_range(2, 10, None), ((2, 2), (2, 10)));
    assert_eq!(split_range(2, 10, Some(20)), ((2, 10), (10, 10)));
    assert_eq!(split_range(7, 10, Some(5)), ((7, 7), (7, 10)));
}

#[test]
fn historical_block_backfills_the_static_files() {
    let mut p = provider();
    let b = p.insert_historical_block(block(3, 1), None).unwrap();
    assert_eq!(b, BlockBodyIndices { first_tx_num: 0, tx_count: 1 });
    assert_eq!(p.static_file_provider.headers.len(), 4);
    assert_eq!(p.static_file_provider.headers[3].hash, B256::new(1, 0, 0, 3));
    assert_eq!(p.static_file_provider.headers[1].header.number, 1);
}

#[test]
fn change_rows_read_previous_values_from_plain_state() {
    let mut p = provider();
    p.insert_block(block(0, 0), None).unwrap();
    p.write_state_changes(StateChanges {
        account_changes: vec![],
        storage_changes: vec![],
        accounts: vec![(A, Some(account(10)))],
        storage: vec![],
        receipts: vec![],
    });
    let state = p.changes_from_plain(1, &vec![(A, Some(account(20))), (B, Some(account(5)))], &vec![], vec![]);
    assert_eq!(
        state.account_changes,
        vec![
            (BlockNumberAddress { block_number: 1, address: A }, Some(account(10))),
            (BlockNumberAddress { block_number: 1, address: B }, None),
        ]
    );
    p.append_blocks_with_state(vec![block(1, 0)], state, None).unwrap();
    assert_eq!(p.account_block_changeset(1), vec![(A, Some(account(10))), (B, None)]);
    assert_eq!(p.basic_account(&A), Some(account(20)));
    assert_eq!(p.basic_account(&B), Some(account(5)));
}
