use chain_provider::log::{logs_bloom, ConsensusLog, Log};
use chain_provider::maintenance::{
    prune_table_with_iterator, prune_table_with_range, range_size_hint, unwind_table_by_num, RangeBound,
};
use chain_provider::checkpoints::PruneLimiter;
use chain_provider::primitives::{keccak256, keccak256_address, Address, B256, U256};
use chain_provider::table::Table;

fn bytes_of(w: &B256) -> Vec<u8> {
    let mut v = Vec::new();
    for limb in [w.a, w.b, w.c, w.d] {
        v.extend_from_slice(&limb.to_be_bytes());
    }
    v
}

#[test]
fn keccak_of_empty_input() {
    let h = keccak256(&vec![]);
    let expected = alloy_primitives::hex::decode("c5d2460186f7233c927e7db2dcc703c0e500b653ca82273b7bfad8045d85a470").unwrap();
    assert_eq!(bytes_of(&h), expected);
}

#[test]
fn keccak_of_an_address_hashes_its_twenty_bytes() {
    let a = Address::new(0x0102030405060708, 0x090a0b0c0d0e0f10, 0x11121314);
    let raw: Vec<u8> = (1..=20u8).collect();
    assert_eq!(keccak256_address(&a), keccak256(&raw));
    assert_ne!(keccak256(&raw), B256::zero());
}

#[test]
fn u256_addition_wraps_and_carries() {
    let max = U256 { hi: u128::MAX, lo: u128::MAX };
    assert_eq!(max.wrapping_add(&U256::from_u128(1)), U256::zero());
    let low = U256 { hi: 0, lo: u128::MAX };
    assert_eq!(low.wrapping_add(&U256::from_u128(1)), U256 { hi: 1, lo: 0 });
    assert_eq!(U256::from_u128(2).wrapping_add(&U256::from_u128(3)), U256::from_u128(5));
    assert!(U256::zero().is_zero());
}

#[test]
fn logs_bloom_matches_the_filter_definition() {
    let address = Address::new(1, 2, 3);
    let topic = B256::new(4, 5, 6, 7);
    let log = Log { address, topics: vec![topic], data: vec![1, 2] };
    let bloom = logs_bloom(&vec![log]);
    let mut expected = alloy_primitives::Bloom::ZERO;
    expected.m3_2048(&address.to_bytes());
    expected.m3_2048(&topic.to_bytes());
    assert_eq!(bloom.bytes, expected.as_slice().to_vec());
    assert_eq!(logs_bloom(&vec![]).bytes, vec![0u8; 256]);
}

#[test]
fn consensus_log_converts_both_ways() {
    let log = Log { address: Address::new(9, 9, 9), topics: vec![B256::new(1, 0, 0, 0)], data: vec![5] };
    let c: ConsensusLog = ConsensusLog::from(log.clone());
    assert_eq!(c.topics, log.topics);
    let back: Log = Log::from(c);
    assert_eq!(back, log);
}

#[test]
fn range_sizes() {
    assert_eq!(range_size_hint(RangeBound::Included(3), RangeBound::Excluded(10)), Some(7));
    assert_eq!(range_size_hint(RangeBound::Included(3), RangeBound::Included(10)), Some(8));
    assert_eq!(range_size_hint(RangeBound::Excluded(3), RangeBound::Included(10)), Some(7));
    assert_eq!(range_size_hint(RangeBound::Unbounded, RangeBound::Excluded(4)), Some(4));
    assert_eq!(range_size_hint(RangeBound::Included(3), RangeBound::Unbounded), None);
    assert_eq!(range_size_hint(RangeBound::Included(10), RangeBound::Excluded(3)), None);
    assert_eq!(range_size_hint(RangeBound::Excluded(u64::MAX), RangeBound::Excluded(3)), None);
}

#[test]
fn table_truncation_and_pruning() {
    let mut t: Table<u64, u64> = Table::new();
    for k in 0..10u64 {
        t.put(k, k * 2);
    }
    assert_eq!(unwind_table_by_num(&mut t, 6), 3);
    assert_eq!(t.len(), 7);
    let mut limiter = PruneLimiter { deleted_entries_limit: Some(2), deleted_entries_count: 0 };
    let (deleted, done) = prune_table_with_iterator(&mut t, &vec![0, 1, 2, 3], &mut limiter);
    assert_eq!((deleted, done), (2, false));
    assert_eq!(t.get(&2), Some(&4));
    let mut unlimited = PruneLimiter { deleted_entries_limit: None, deleted_entries_count: 0 };
    let (deleted, done, rows) = prune_table_with_range(&mut t, &2, &4, &mut unlimited);
    assert_eq!((deleted, done), (3, true));
    assert_eq!(rows, vec![(2, 4), (3, 6), (4, 8)]);
    let mut t2: Table<u64, u64> = Table::new();
    for k in 0..5u64 {
        t2.put(k, k);
    }
    let mut two = PruneLimiter { deleted_entries_limit: Some(2), deleted_entries_count: 0 };
    let (deleted, done, rows) = prune_table_with_range(&mut t2, &1, &3, &mut two);
    assert_eq!((deleted, done), (2, false));
    assert_eq!(rows, vec![(1, 1), (2, 2)]);
    assert_eq!(t2.get(&3), Some(&3));
    assert_eq!(two.deleted_entries_count, 2);
    assert_eq!(t.len(), 2);
    assert_eq!(t.get(&5), Some(&10));
}
