//! Read and write sets of EVM state, for telling which transactions depend on
//! which.
use crate::primitives::{Address, B256, U256};
use vstd::prelude::*;

verus! {

/// The part of an account's data that an access touches.
#[derive(Clone, Copy, Debug, PartialEq, Eq, Structural, Hash)]
pub enum RevmAccountDataKey {
    Nonce,
    Balance,
    Code,
    /// The account's storage as a whole: used when it is self-destructed.
    Storage,
}

/// One piece of EVM state: part of an account, or a storage slot.
#[derive(Clone, Copy, Debug, PartialEq, Eq, Structural, Hash)]
pub enum RevmKey {
    Account(Address, RevmAccountDataKey),
    Slot(Address, B256),
}

/// A set of accessed state keys.
#[derive(Debug)]
pub struct RevmAccessSet {
    keys: Vec<RevmKey>,
}

impl RevmAccessSet {
    pub closed spec fn view(&self) -> Set<RevmKey> {
        Set::new(|k: RevmKey| self.keys@.contains(k))
    }

    pub fn new() -> (r: RevmAccessSet)
        ensures
            r.view() == Set::<RevmKey>::empty(),
    {
        let r = RevmAccessSet { keys: Vec::new() };
        proof {
            assert(r.view() =~= Set::<RevmKey>::empty());
        }
        r
    }

    pub fn contains(&self, key: &RevmKey) -> (r: bool)
        ensures
            r == self.view().contains(*key),
    {
        let mut i: usize = 0;
        while i < self.keys.len()
            invariant
                i <= self.keys@.len(),
                forall|j: int| 0 <= j < i ==> self.keys@[j] != *key,
            decreases self.keys@.len() - i,
        {
            if self.keys[i] == *key {
                proof {
                    assert(self.keys@.contains(*key));
                }
                return true;
            }
            i = i + 1;
        }
        proof {
            assert(!self.keys@.contains(*key));
        }
        false
    }

    /// Adds a key.
    pub fn insert(&mut self, key: RevmKey)
        ensures
            final(self).view() == old(self).view().insert(key),
    {
        if !self.contains(&key) {
            self.keys.push(key);
            proof {
                let o = old(self).keys@;
                let n = self.keys@;
                assert forall|k: RevmKey| n.contains(k) <==> (o.contains(k) || k == key) by {
                    if o.contains(k) {
                        let j = choose|j: int| 0 <= j < o.len() && o[j] == k;
                        assert(n[j] == k);
                    }
                    if k == key {
                        assert(n[o.len() as int] == k);
                    }
                    if n.contains(k) {
                        let j = choose|j: int| 0 <= j < n.len() && n[j] == k;
                        if j < o.len() {
                            assert(o[j] == k);
                        }
                    }
                }
            }
        }
        proof {
            assert(self.view() =~= old(self).view().insert(key));
        }
    }

    /// The keys, each once.
    pub fn keys(&self) -> (r: &Vec<RevmKey>)
        ensures
            forall|k: RevmKey| #[trigger] r@.contains(k) <==> self.view().contains(k),
    {
        &self.keys
    }

    /// Records an access to part of an account.
    pub fn account(&mut self, address: Address, data: RevmAccountDataKey)
        ensures
            final(self).view() == old(self).view().insert(RevmKey::Account(address, data)),
    {
        self.insert(RevmKey::Account(address, data));
    }

    pub fn account_nonce(&mut self, address: Address)
        ensures
            final(self).view() == old(self).view().insert(RevmKey::Account(address, RevmAccountDataKey::Nonce)),
    {
        self.account(address, RevmAccountDataKey::Nonce);
    }

    pub fn account_balance(&mut self, address: Address)
        ensures
            final(self).view() == old(self).view().insert(RevmKey::Account(address, RevmAccountDataKey::Balance)),
    {
        self.account(address, RevmAccountDataKey::Balance);
    }

    pub fn account_code(&mut self, address: Address)
        ensures
            final(self).view() == old(self).view().insert(RevmKey::Account(address, RevmAccountDataKey::Code)),
    {
        self.account(address, RevmAccountDataKey::Code);
    }

    /// Records an access to an account's whole storage (a self-destruct).
    pub fn account_storage(&mut self, address: Address)
        ensures
            final(self).view() == old(self).view().insert(RevmKey::Account(address, RevmAccountDataKey::Storage)),
    {
        self.account(address, RevmAccountDataKey::Storage);
    }

    /// Records an access to a storage slot.
    pub fn slot(&mut self, address: Address, slot: B256)
        ensures
            final(self).view() == old(self).view().insert(RevmKey::Slot(address, slot)),
    {
        self.insert(RevmKey::Slot(address, slot));
    }
}

impl RevmAccessSet {
    /// The set of the given keys.
    pub fn from_keys(keys: &Vec<RevmKey>) -> (r: RevmAccessSet)
        ensures
            forall|k: RevmKey| #[trigger] r.view().contains(k) <==> keys@.contains(k),
    {
        let mut set = RevmAccessSet::new();
        let mut i: usize = 0;
        while i < keys.len()
            invariant
                i <= keys@.len(),
                forall|k: RevmKey| #[trigger] set.view().contains(k) <==> keys@.subrange(0, i as int).contains(k),
            decreases keys@.len() - i,
        {
            set.insert(keys[i]);
            proof {
                assert forall|k: RevmKey| #[trigger] set.view().contains(k) <==> keys@.subrange(0, i + 1).contains(k) by {
                    let a = keys@.subrange(0, i as int);
                    let b = keys@.subrange(0, i + 1);
                    if a.contains(k) {
                        let j = choose|j: int| 0 <= j < a.len() && a[j] == k;
                        assert(b[j] == k);
                    }
                    if k == keys@[i as int] {
                        assert(b[i as int] == k);
                    }
                    if b.contains(k) {
                        let j = choose|j: int| 0 <= j < b.len() && b[j] == k;
                        if j < i {
                            assert(a[j] == k);
                        }
                    }
                }
            }
            i = i + 1;
        }
        proof {
            assert(keys@.subrange(0, i as int) =~= keys@);
        }
        set
    }
}

/// The parts of an account that the EVM compares before and after a
/// transition.
#[derive(Clone, Copy, Debug, PartialEq, Eq, Structural)]
pub struct AccountInfo {
    pub nonce: u64,
    pub balance: U256,
    pub code_hash: B256,
}

/// How an account changed over a transaction: its info before and after,
/// whether its storage was destroyed, and each touched slot with whether its
/// value changed.
pub struct TransitionAccount {
    pub info: Option<AccountInfo>,
    pub previous_info: Option<AccountInfo>,
    pub storage_was_destroyed: bool,
    pub storage: Vec<(U256, bool)>,
}

/// A 256-bit number read as a 32-byte word.
pub open spec fn word_of(x: U256) -> B256 {
    B256 { a: (x.hi >> 64u128) as u64, b: x.hi as u64, c: (x.lo >> 64u128) as u64, d: x.lo as u64 }
}

pub fn u256_to_word(x: U256) -> (r: B256)
    ensures
        r == word_of(x),
{
    B256 { a: (x.hi >> 64u128) as u64, b: x.hi as u64, c: (x.lo >> 64u128) as u64, d: x.lo as u64 }
}

pub open spec fn nonce_spec(i: Option<AccountInfo>) -> Option<u64> {
    match i {
        Some(x) => Some(x.nonce),
        None => None,
    }
}

pub open spec fn balance_spec(i: Option<AccountInfo>) -> Option<U256> {
    match i {
        Some(x) => Some(x.balance),
        None => None,
    }
}

pub open spec fn code_hash_spec(i: Option<AccountInfo>) -> Option<B256> {
    match i {
        Some(x) => Some(x.code_hash),
        None => None,
    }
}

/// The account keys a transition writes: each part of the info that differs,
/// and the whole storage if it was destroyed.
pub open spec fn info_writes(address: Address, t: TransitionAccount) -> Set<RevmKey> {
    Set::new(|k: RevmKey| {
        ||| (k == RevmKey::Account(address, RevmAccountDataKey::Nonce) && nonce_spec(t.info) != nonce_spec(t.previous_info))
        ||| (k == RevmKey::Account(address, RevmAccountDataKey::Balance) && balance_spec(t.info) != balance_spec(t.previous_info))
        ||| (k == RevmKey::Account(address, RevmAccountDataKey::Code) && code_hash_spec(t.info) != code_hash_spec(t.previous_info))
        ||| (k == RevmKey::Account(address, RevmAccountDataKey::Storage) && t.storage_was_destroyed)
    })
}

/// The slot keys among the first `n` touched slots whose value changed.
pub open spec fn slot_writes(address: Address, storage: Seq<(U256, bool)>, n: int) -> Set<RevmKey> {
    Set::new(|k: RevmKey| exists|j: int| 0 <= j < n && storage[j].1 && k == RevmKey::Slot(address, word_of(storage[j].0)))
}

/// The keys a transition writes.
pub open spec fn transition_writes(address: Address, t: TransitionAccount) -> Set<RevmKey> {
    info_writes(address, t).union(slot_writes(address, t.storage@, t.storage@.len() as int))
}

fn nonce_of(i: Option<AccountInfo>) -> (r: Option<u64>)
    ensures
        r == nonce_spec(i),
{
    match i {
        Some(x) => Some(x.nonce),
        None => None,
    }
}

fn balance_of(i: Option<AccountInfo>) -> (r: Option<U256>)
    ensures
        r == balance_spec(i),
{
    match i {
        Some(x) => Some(x.balance),
        None => None,
    }
}

fn code_hash_of(i: Option<AccountInfo>) -> (r: Option<B256>)
    ensures
        r == code_hash_spec(i),
{
    match i {
        Some(x) => Some(x.code_hash),
        None => None,
    }
}

/// A transaction's read and write sets.
#[derive(Debug)]
pub struct TransactionRWSet {
    pub read_set: RevmAccessSet,
    pub write_set: RevmAccessSet,
}

impl TransactionRWSet {
    pub fn new() -> (r: TransactionRWSet)
        ensures
            r.read_set.view() == Set::<RevmKey>::empty(),
            r.write_set.view() == Set::<RevmKey>::empty(),
    {
        TransactionRWSet { read_set: RevmAccessSet::new(), write_set: RevmAccessSet::new() }
    }

    pub fn with_read_set(self, read_set: RevmAccessSet) -> (r: TransactionRWSet)
        ensures
            r.read_set == read_set,
            r.write_set == self.write_set,
    {
        TransactionRWSet { read_set, write_set: self.write_set }
    }

    pub fn with_write_set(self, write_set: RevmAccessSet) -> (r: TransactionRWSet)
        ensures
            r.write_set == write_set,
            r.read_set == self.read_set,
    {
        TransactionRWSet { read_set: self.read_set, write_set }
    }

    /// Adds to the write set what an account's transition changed: each part
    /// of its info that differs, its storage if destroyed, and each changed
    /// slot.
    pub fn record_transition(&mut self, address: Address, transition: &TransitionAccount)
        ensures
            final(self).read_set == old(self).read_set,
            final(self).write_set.view() == old(self).write_set.view().union(transition_writes(address, *transition)),
    {
        let ghost w0 = self.write_set.view();
        let info = transition.info;
        let previous_info = transition.previous_info;
        let nonce_changed = nonce_of(info) != nonce_of(previous_info);
        let balance_changed = balance_of(info) != balance_of(previous_info);
        let code_changed = code_hash_of(info) != code_hash_of(previous_info);
        proof {
            assert(nonce_changed == (nonce_spec(info) != nonce_spec(previous_info)));
            assert(balance_changed == (balance_spec(info) != balance_spec(previous_info)));
            assert(code_changed == (code_hash_spec(info) != code_hash_spec(previous_info)));
        }
        if nonce_changed {
            self.write_set.account_nonce(address);
        }
        if balance_changed {
            self.write_set.account_balance(address);
        }
        if code_changed {
            self.write_set.account_code(address);
        }
        if transition.storage_was_destroyed {
            self.write_set.account_storage(address);
        }
        let ghost w1 = self.write_set.view();
        proof {
            assert(w1 =~= w0.union(info_writes(address, *transition)));
        }
        let mut i: usize = 0;
        while i < transition.storage.len()
            invariant
                i <= transition.storage@.len(),
                self.read_set == old(self).read_set,
                self.write_set.view() == w1.union(slot_writes(address, transition.storage@, i as int)),
            decreases transition.storage@.len() - i,
        {
            let (slot, changed) = transition.storage[i];
            if changed {
                let w = u256_to_word(slot);
                self.write_set.slot(address, w);
            }
            proof {
                let st = transition.storage@;
                assert forall|k: RevmKey| #[trigger] slot_writes(address, st, i + 1).contains(k) <==> (slot_writes(address, st, i as int).contains(k)
                    || (st[i as int].1 && k == RevmKey::Slot(address, word_of(st[i as int].0)))) by {
                    if slot_writes(address, st, i + 1).contains(k) {
                        let j = choose|j: int| 0 <= j < i + 1 && st[j].1 && k == RevmKey::Slot(address, word_of(st[j].0));
                        if j < i {
                            assert(slot_writes(address, st, i as int).contains(k));
                        }
                    }
                    if slot_writes(address, st, i as int).contains(k) {
                        let j = choose|j: int| 0 <= j < i && st[j].1 && k == RevmKey::Slot(address, word_of(st[j].0));
                        assert(0 <= j < i + 1);
                    }
                    if st[i as int].1 && k == RevmKey::Slot(address, word_of(st[i as int].0)) {
                        assert(0 <= i < i + 1);
                    }
                }
                assert(self.write_set.view() =~= w1.union(slot_writes(address, st, i + 1)));
            }
            i = i + 1;
        }
        proof {
            assert(self.write_set.view() =~= w0.union(transition_writes(address, *transition)));
        }
    }

    /// Whether this transaction read something that `other` wrote: a key in
    /// both sets, or a slot of an account whose storage `other` destroyed.
    pub fn depends_on(&self, other: &TransactionRWSet) -> (r: bool)
        ensures
            r == exists|k: RevmKey| #[trigger] self.read_set.view().contains(k) && (other.write_set.view().contains(k)
                || (k matches RevmKey::Slot(a, _) && other.write_set.view().contains(RevmKey::Account(a, RevmAccountDataKey::Storage)))),
    {
        let keys = self.read_set.keys();
        let mut i: usize = 0;
        while i < keys.len()
            invariant
                i <= keys@.len(),
                forall|k: RevmKey| #[trigger] keys@.contains(k) <==> self.read_set.view().contains(k),
                forall|j: int| 0 <= j < i ==> !(other.write_set.view().contains(#[trigger] keys@[j]) || (keys@[j] matches RevmKey::Slot(a, _)
                    && other.write_set.view().contains(RevmKey::Account(a, RevmAccountDataKey::Storage)))),
            decreases keys@.len() - i,
        {
            let key = keys[i];
            if let RevmKey::Slot(address, _) = key {
                if other.write_set.contains(&RevmKey::Account(address, RevmAccountDataKey::Storage)) {
                    proof {
                        assert(keys@[i as int] == key);
                        assert(keys@.contains(key));
                        assert(self.read_set.view().contains(key));
                    }
                    return true;
                }
            }
            if other.write_set.contains(&key) {
                proof {
                    assert(keys@[i as int] == key);
                    assert(keys@.contains(key));
                    assert(self.read_set.view().contains(key));
                }
                return true;
            }
            i = i + 1;
        }
        proof {
            assert forall|k: RevmKey| #[trigger] self.read_set.view().contains(k) implies !(other.write_set.view().contains(k)
                || (k matches RevmKey::Slot(a, _) && other.write_set.view().contains(RevmKey::Account(a, RevmAccountDataKey::Storage)))) by {
                assert(keys@.contains(k));
                let j = choose|j: int| 0 <= j < keys@.len() && keys@[j] == k;
            }
        }
        false
    }
}

} // verus!
