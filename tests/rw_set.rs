use chain_provider::primitives::{Address, B256, U256};
use chain_provider::rw_set::{
    AccountInfo, RevmAccessSet, RevmAccountDataKey, RevmKey, TransactionRWSet, TransitionAccount,
};

fn address_of(a: alloy_primitives::Address) -> Address {
    let b = a.0 .0;
    Address {
        hi: u64::from_be_bytes(b[0..8].try_into().unwrap()),
        mid: u64::from_be_bytes(b[8..16].try_into().unwrap()),
        lo: u32::from_be_bytes(b[16..20].try_into().unwrap()),
    }
}

fn word_of(w: alloy_primitives::B256) -> B256 {
    let b = w.0;
    let limb = |i: usize| u64::from_be_bytes(b[i..i + 8].try_into().unwrap());
    B256 { a: limb(0), b: limb(8), c: limb(16), d: limb(24) }
}

#[test]
fn rw_set_dependencies() {
    let account_key = RevmKey::Account(address_of(alloy_primitives::Address::random()), RevmAccountDataKey::Balance);
    let set1 = TransactionRWSet::new().with_read_set(RevmAccessSet::from_keys(&vec![account_key]));
    let set2 = TransactionRWSet::new().with_write_set(RevmAccessSet::from_keys(&vec![account_key]));
    assert!(set1.depends_on(&set2));
    assert!(!set2.depends_on(&set1));
    assert!(!set2.depends_on(&set2));
    assert!(!set1.depends_on(&set1));

    let address = address_of(alloy_primitives::Address::random());
    let address_storage_key = RevmKey::Account(address, RevmAccountDataKey::Storage);
    let slot_key = RevmKey::Slot(address, word_of(alloy_primitives::B256::random()));
    let set1 = TransactionRWSet::new().with_read_set(RevmAccessSet::from_keys(&vec![slot_key]));
    let set2 = TransactionRWSet::new().with_write_set(RevmAccessSet::from_keys(&vec![address_storage_key]));
    assert!(set1.depends_on(&set2));
    assert!(!set2.depends_on(&set1));
    assert!(!set2.depends_on(&set2));
    assert!(!set1.depends_on(&set1));
}

#[test]
fn transition_records_only_what_changed() {
    let address = Address::new(1, 2, 3);
    let before = AccountInfo { nonce: 1, balance: U256::from_u128(10), code_hash: B256::zero() };
    let after = AccountInfo { nonce: 2, balance: U256::from_u128(10), code_hash: B256::zero() };
    let transition = TransitionAccount {
        info: Some(after),
        previous_info: Some(before),
        storage_was_destroyed: false,
        storage: vec![(U256::from_u128(5), true), (U256::from_u128(6), false)],
    };
    let mut set = TransactionRWSet::new();
    set.record_transition(address, &transition);
    let w = &set.write_set;
    assert!(w.contains(&RevmKey::Account(address, RevmAccountDataKey::Nonce)));
    assert!(!w.contains(&RevmKey::Account(address, RevmAccountDataKey::Balance)));
    assert!(!w.contains(&RevmKey::Account(address, RevmAccountDataKey::Code)));
    assert!(!w.contains(&RevmKey::Account(address, RevmAccountDataKey::Storage)));
    assert!(w.contains(&RevmKey::Slot(address, B256::new(0, 0, 0, 5))));
    assert!(!w.contains(&RevmKey::Slot(address, B256::new(0, 0, 0, 6))));
    assert_eq!(w.keys().len(), 2);
}

#[test]
fn created_account_writes_every_part() {
    let address = Address::new(4, 5, 6);
    let after = AccountInfo { nonce: 0, balance: U256::from_u128(1), code_hash: B256::new(1, 1, 1, 1) };
    let transition = TransitionAccount { info: Some(after), previous_info: None, storage_was_destroyed: true, storage: vec![] };
    let mut set = TransactionRWSet::new();
    set.record_transition(address, &transition);
    assert_eq!(set.write_set.keys().len(), 4);
}
