use chain_provider::sharded::{
    append_history_index, chunk_into_shards, unwind_history_shards, unwind_key_history, Shard,
    NUM_OF_INDICES_IN_SHARD,
};

fn flat(shards: &[Shard]) -> Vec<u64> {
    shards.iter().flat_map(|s| s.list.iter().copied()).collect()
}

#[test]
fn shard_growth_closes_full_shards() {
    let blocks: Vec<u64> = (1..=4001u64).map(|i| i * 3).collect();
    let mut shards: Vec<Shard> = Vec::new();
    append_history_index(&mut shards, &blocks);
    assert_eq!(shards.len(), 3);
    assert_eq!(shards[0].list.len(), 2000);
    assert_eq!(shards[0].highest_block_number, blocks[1999]);
    assert_eq!(shards[1].list.len(), 2000);
    assert_eq!(shards[1].highest_block_number, blocks[3999]);
    assert_eq!(shards[2].list, vec![blocks[4000]]);
    assert_eq!(shards[2].highest_block_number, u64::MAX);
    assert_eq!(flat(&shards), blocks);
}

#[test]
fn appending_refills_the_open_shard() {
    let mut shards: Vec<Shard> = Vec::new();
    append_history_index(&mut shards, &vec![1, 2, 3]);
    append_history_index(&mut shards, &vec![5, 8]);
    assert_eq!(shards.len(), 1);
    assert_eq!(shards[0].list, vec![1, 2, 3, 5, 8]);
    let more: Vec<u64> = (10..2010).collect();
    append_history_index(&mut shards, &more);
    assert_eq!(shards.len(), 2);
    assert_eq!(shards[0].list.len(), NUM_OF_INDICES_IN_SHARD);
    assert_eq!(shards[0].highest_block_number, 2004);
    assert_eq!(shards[1].list, (2005..2010).collect::<Vec<u64>>());
}

#[test]
fn chunking_an_empty_list_gives_no_shards() {
    assert!(chunk_into_shards(&vec![]).is_empty());
    let one = chunk_into_shards(&vec![7]);
    assert_eq!(one.len(), 1);
    assert_eq!(one[0].highest_block_number, u64::MAX);
}

#[test]
fn unwind_cuts_at_the_block_and_keeps_lower_entries() {
    let blocks: Vec<u64> = (0..4500u64).collect();
    let mut shards: Vec<Shard> = Vec::new();
    append_history_index(&mut shards, &blocks);
    unwind_key_history(&mut shards, 2500);
    assert_eq!(flat(&shards), (0..2500u64).collect::<Vec<u64>>());
    assert_eq!(shards.len(), 2);
    assert_eq!(shards[1].highest_block_number, u64::MAX);
    assert_eq!(shards[1].list.len(), 500);
}

#[test]
fn unwind_at_an_entry_drops_that_entry() {
    let mut shards: Vec<Shard> = Vec::new();
    append_history_index(&mut shards, &vec![3, 5, 9]);
    let boundary = unwind_history_shards(&mut shards, 5);
    assert_eq!(boundary, vec![3]);
    assert!(shards.is_empty());
}

#[test]
fn unwind_below_every_entry_empties_the_key() {
    let mut shards: Vec<Shard> = Vec::new();
    append_history_index(&mut shards, &(100..2200u64).collect::<Vec<u64>>());
    unwind_key_history(&mut shards, 50);
    assert!(shards.is_empty());
}

#[test]
fn unwind_above_a_closed_shard_keeps_it_whole() {
    let blocks: Vec<u64> = (0..2000u64).chain([5000u64]).collect();
    let mut shards: Vec<Shard> = Vec::new();
    append_history_index(&mut shards, &blocks);
    assert_eq!(shards.len(), 2);
    let boundary = unwind_history_shards(&mut shards, 3000);
    assert_eq!(boundary.len(), 2000);
    assert!(shards.is_empty());
    unwind_key_history(&mut shards, 3000);
    assert!(shards.is_empty());
}
