//! Rows and keys of the chain tables.
use crate::log::{log_images, Log, LogImage};
use crate::primitives::{
    lemma_address_rank, lemma_b256_rank, lemma_pair_rank, pow2_160, pow2_256, Address, B256, U256,
};
use crate::table::{TableKey, TableValue};
use vstd::prelude::*;

verus! {

/// An account's state: nonce, balance and the hash of its code, if any.
#[derive(Clone, Copy, Debug, PartialEq, Eq, Structural)]
pub struct Account {
    pub nonce: u64,
    pub balance: U256,
    pub bytecode_hash: Option<B256>,
}

/// A block header, reduced to the fields that the provider reads.
#[derive(Clone, Copy, Debug, PartialEq, Eq, Structural)]
pub struct Header {
    pub parent_hash: B256,
    pub number: u64,
    pub state_root: B256,
    pub difficulty: U256,
    pub timestamp: u64,
    pub base_fee_per_gas: Option<u64>,
    pub excess_blob_gas: Option<u64>,
}

/// A header together with its hash.
#[derive(Clone, Copy, Debug, PartialEq, Eq, Structural)]
pub struct SealedHeader {
    pub header: Header,
    pub hash: B256,
}

/// The transactions of a block: the half-open range
/// `[first_tx_num, first_tx_num + tx_count)` of transaction numbers.
#[derive(Clone, Copy, Debug, PartialEq, Eq, Structural)]
pub struct BlockBodyIndices {
    pub first_tx_num: u64,
    pub tx_count: u64,
}

impl BlockBodyIndices {
    pub open spec fn end(&self) -> int {
        self.first_tx_num + self.tx_count
    }

    pub open spec fn fits(&self) -> bool {
        self.end() <= u64::MAX
    }

    /// The number after the block's last transaction.
    pub fn next_tx_num(&self) -> (r: u64)
        requires
            self.fits(),
        ensures
            r == self.end(),
    {
        self.first_tx_num + self.tx_count
    }

    pub open spec fn last_tx_spec(&self) -> int {
        if self.end() == 0 {
            0
        } else if self.end() > u64::MAX {
            u64::MAX - 1
        } else {
            self.end() - 1
        }
    }

    /// The block's last transaction number; for an empty block, one below the
    /// first (saturating at zero).
    pub fn last_tx_num(&self) -> (r: u64)
        ensures
            r == self.last_tx_spec(),
    {
        let end: u64 = self.first_tx_num.saturating_add(self.tx_count);
        end.saturating_sub(1)
    }

    pub fn is_empty(&self) -> (r: bool)
        ensures
            r == (self.tx_count == 0),
    {
        self.tx_count == 0
    }

    /// Whether transaction number `t` belongs to the block.
    pub fn contains_tx(&self, t: u64) -> (r: bool)
        ensures
            r == (self.first_tx_num <= t && t < self.end()),
    {
        t >= self.first_tx_num && t - self.first_tx_num < self.tx_count
    }
}

/// A signed transaction as stored: its signed encoding, without the hash.
#[derive(Clone, Debug, PartialEq, Eq)]
pub struct TransactionSignedNoHash {
    pub encoded: Vec<u8>,
}

/// A signed transaction with its hash.
#[derive(Clone, Debug, PartialEq, Eq)]
pub struct TransactionSigned {
    pub hash: B256,
    pub encoded: Vec<u8>,
}

/// A transaction together with its sender.
#[derive(Clone, Debug, PartialEq, Eq)]
pub struct TransactionSignedEcRecovered {
    pub transaction: TransactionSigned,
    pub signer: Address,
}

/// A withdrawal from the beacon chain.
#[derive(Clone, Copy, Debug, PartialEq, Eq, Structural)]
pub struct Withdrawal {
    pub index: u64,
    pub validator_index: u64,
    pub address: Address,
    pub amount: u64,
}

/// The outcome of one transaction.
#[derive(Clone, Debug, PartialEq, Eq)]
pub struct Receipt {
    pub success: bool,
    pub cumulative_gas_used: u64,
    pub logs: Vec<Log>,
}

pub fn copy_vec<T: Copy>(v: &Vec<T>) -> (r: Vec<T>)
    ensures
        r@ == v@,
{
    let mut r: Vec<T> = Vec::new();
    let mut i: usize = 0;
    while i < v.len()
        invariant
            i <= v@.len(),
            r@ == v@.subrange(0, i as int),
        decreases v@.len() - i,
    {
        r.push(v[i]);
        proof {
            assert(r@ =~= v@.subrange(0, i + 1));
        }
        i = i + 1;
    }
    proof {
        assert(r@ =~= v@);
    }
    r
}

impl<T: Copy> TableValue for Vec<T> {
    type Image = Seq<T>;

    open spec fn image(&self) -> Seq<T> {
        self@
    }

    fn duplicate(&self) -> (r: Self) {
        copy_vec(self)
    }
}

impl TableValue for Account {
    type Image = Account;

    open spec fn image(&self) -> Account {
        *self
    }

    fn duplicate(&self) -> (r: Self) {
        *self
    }
}

impl TableValue for Option<Account> {
    type Image = Option<Account>;

    open spec fn image(&self) -> Option<Account> {
        *self
    }

    fn duplicate(&self) -> (r: Self) {
        *self
    }
}

impl TableValue for Header {
    type Image = Header;

    open spec fn image(&self) -> Header {
        *self
    }

    fn duplicate(&self) -> (r: Self) {
        *self
    }
}

impl TableValue for BlockBodyIndices {
    type Image = BlockBodyIndices;

    open spec fn image(&self) -> BlockBodyIndices {
        *self
    }

    fn duplicate(&self) -> (r: Self) {
        *self
    }
}

impl TableValue for B256 {
    type Image = B256;

    open spec fn image(&self) -> B256 {
        *self
    }

    fn duplicate(&self) -> (r: Self) {
        *self
    }
}

impl TableValue for U256 {
    type Image = U256;

    open spec fn image(&self) -> U256 {
        *self
    }

    fn duplicate(&self) -> (r: Self) {
        *self
    }
}

impl TableValue for Address {
    type Image = Address;

    open spec fn image(&self) -> Address {
        *self
    }

    fn duplicate(&self) -> (r: Self) {
        *self
    }
}

impl TableValue for TransactionSignedNoHash {
    type Image = Seq<u8>;

    open spec fn image(&self) -> Seq<u8> {
        self.encoded@
    }

    fn duplicate(&self) -> (r: Self) {
        TransactionSignedNoHash { encoded: copy_vec(&self.encoded) }
    }
}

impl TableValue for Receipt {
    type Image = (bool, u64, Seq<LogImage>);

    open spec fn image(&self) -> (bool, u64, Seq<LogImage>) {
        (self.success, self.cumulative_gas_used, log_images(self.logs@))
    }

    fn duplicate(&self) -> (r: Self) {
        let mut logs: Vec<Log> = Vec::new();
        let mut i: usize = 0;
        while i < self.logs.len()
            invariant
                i <= self.logs@.len(),
                log_images(logs@) == log_images(self.logs@.subrange(0, i as int)),
            decreases self.logs@.len() - i,
        {
            let ghost prev = logs@;
            let d = self.logs[i].duplicate();
            logs.push(d);
            proof {
                let sub = self.logs@.subrange(0, i as int);
                assert(prev.len() == log_images(prev).len());
                assert(prev.len() == i);
                assert forall|j: int| 0 <= j < i + 1 implies #[trigger] logs@[j].image()
                    == self.logs@[j].image() by {
                    if j < i {
                        assert(log_images(prev)[j] == prev[j].image());
                        assert(log_images(sub)[j] == sub[j].image());
                        assert(logs@[j] == prev[j]);
                    }
                }
                assert(log_images(logs@) =~= log_images(self.logs@.subrange(0, i + 1)));
            }
            i = i + 1;
        }
        proof {
            assert(self.logs@.subrange(0, i as int) =~= self.logs@);
        }
        Receipt { success: self.success, cumulative_gas_used: self.cumulative_gas_used, logs }
    }
}

/// A storage slot of an account.
#[derive(Clone, Copy, Debug, PartialEq, Eq, Structural)]
pub struct SlotKey {
    pub address: Address,
    pub slot: B256,
}

impl TableKey for SlotKey {
    open spec fn rank(&self) -> int {
        self.address.rank() * pow2_256() + self.slot.rank()
    }

    proof fn lemma_rank_injective(a: Self, b: Self) {
        lemma_slot_key_rank(a, b);
    }

    fn key_lt(&self, other: &Self) -> (r: bool) {
        proof {
            lemma_slot_key_rank(*self, *other);
        }
        self.address.key_lt(&other.address) || (self.address == other.address && self.slot.key_lt(
            &other.slot,
        ))
    }

    fn key_eq(&self, other: &Self) -> (r: bool) {
        proof {
            lemma_slot_key_rank(*self, *other);
        }
        *self == *other
    }
}

proof fn lemma_slot_key_rank(x: SlotKey, y: SlotKey)
    ensures
        x.rank() < y.rank() <==> (x.address.rank() < y.address.rank() || (x.address == y.address
            && x.slot.rank() < y.slot.rank())),
        x.rank() == y.rank() <==> x == y,
{
    lemma_address_rank(x.address, y.address);
    lemma_b256_rank(x.slot, y.slot);
    lemma_b256_rank(y.slot, x.slot);
    lemma_pair_rank(x.address.rank(), x.slot.rank(), y.address.rank(), y.slot.rank(), pow2_256());
}

/// A storage slot keyed by the hashes of the address and of the slot.
#[derive(Clone, Copy, Debug, PartialEq, Eq, Structural)]
pub struct HashedSlotKey {
    pub hashed_address: B256,
    pub hashed_slot: B256,
}

impl TableKey for HashedSlotKey {
    open spec fn rank(&self) -> int {
        self.hashed_address.rank() * pow2_256() + self.hashed_slot.rank()
    }

    proof fn lemma_rank_injective(a: Self, b: Self) {
        lemma_hashed_slot_rank(a, b);
    }

    fn key_lt(&self, other: &Self) -> (r: bool) {
        proof {
            lemma_hashed_slot_rank(*self, *other);
        }
        self.hashed_address.key_lt(&other.hashed_address) || (self.hashed_address
            == other.hashed_address && self.hashed_slot.key_lt(&other.hashed_slot))
    }

    fn key_eq(&self, other: &Self) -> (r: bool) {
        proof {
            lemma_hashed_slot_rank(*self, *other);
        }
        *self == *other
    }
}

proof fn lemma_hashed_slot_rank(x: HashedSlotKey, y: HashedSlotKey)
    ensures
        x.rank() < y.rank() <==> (x.hashed_address.rank() < y.hashed_address.rank() || (
        x.hashed_address == y.hashed_address && x.hashed_slot.rank() < y.hashed_slot.rank())),
        x.rank() == y.rank() <==> x == y,
{
    lemma_b256_rank(x.hashed_address, y.hashed_address);
    lemma_b256_rank(x.hashed_slot, y.hashed_slot);
    lemma_b256_rank(y.hashed_slot, x.hashed_slot);
    lemma_pair_rank(
        x.hashed_address.rank(),
        x.hashed_slot.rank(),
        y.hashed_address.rank(),
        y.hashed_slot.rank(),
        pow2_256(),
    );
}

/// A block number and an address: the key of an account change.
#[derive(Clone, Copy, Debug, PartialEq, Eq, Structural)]
pub struct BlockNumberAddress {
    pub block_number: u64,
    pub address: Address,
}

impl TableKey for BlockNumberAddress {
    open spec fn rank(&self) -> int {
        self.block_number as int * pow2_160() + self.address.rank()
    }

    proof fn lemma_rank_injective(a: Self, b: Self) {
        lemma_block_address_rank(a, b);
    }

    fn key_lt(&self, other: &Self) -> (r: bool) {
        proof {
            lemma_block_address_rank(*self, *other);
        }
        self.block_number < other.block_number || (self.block_number == other.block_number
            && self.address.key_lt(&other.address))
    }

    fn key_eq(&self, other: &Self) -> (r: bool) {
        proof {
            lemma_block_address_rank(*self, *other);
        }
        *self == *other
    }
}

pub proof fn lemma_block_address_rank(x: BlockNumberAddress, y: BlockNumberAddress)
    ensures
        x.rank() < y.rank() <==> (x.block_number < y.block_number || (x.block_number
            == y.block_number && x.address.rank() < y.address.rank())),
        x.rank() == y.rank() <==> x == y,
        x.rank() >= 0,
{
    lemma_address_rank(x.address, y.address);
    lemma_address_rank(y.address, x.address);
    lemma_pair_rank(
        x.block_number as int,
        x.address.rank(),
        y.block_number as int,
        y.address.rank(),
        pow2_160(),
    );
    assert(x.block_number as int * pow2_160() >= 0) by (nonlinear_arith)
        requires
            pow2_160() > 0,
    ;
}

/// A block number, an address and a slot: the key of a storage change.
#[derive(Clone, Copy, Debug, PartialEq, Eq, Structural)]
pub struct BlockNumberSlot {
    pub block_number: u64,
    pub address: Address,
    pub slot: B256,
}

impl BlockNumberSlot {
    pub open spec fn prefix(&self) -> BlockNumberAddress {
        BlockNumberAddress { block_number: self.block_number, address: self.address }
    }
}

impl TableKey for BlockNumberSlot {
    open spec fn rank(&self) -> int {
        self.prefix().rank() * pow2_256() + self.slot.rank()
    }

    proof fn lemma_rank_injective(a: Self, b: Self) {
        lemma_block_slot_rank(a, b);
    }

    fn key_lt(&self, other: &Self) -> (r: bool) {
        proof {
            lemma_block_slot_rank(*self, *other);
        }
        self.block_number < other.block_number || (self.block_number == other.block_number && (
        self.address.key_lt(&other.address) || (self.address == other.address
            && self.slot.key_lt(&other.slot))))
    }

    fn key_eq(&self, other: &Self) -> (r: bool) {
        proof {
            lemma_block_slot_rank(*self, *other);
        }
        *self == *other
    }
}

proof fn lemma_block_slot_rank(x: BlockNumberSlot, y: BlockNumberSlot)
    ensures
        x.rank() < y.rank() <==> (x.block_number < y.block_number || (x.block_number
            == y.block_number && (x.address.rank() < y.address.rank() || (x.address == y.address
            && x.slot.rank() < y.slot.rank())))),
        x.rank() == y.rank() <==> x == y,
{
    lemma_block_address_rank(x.prefix(), y.prefix());
    lemma_b256_rank(x.slot, y.slot);
    lemma_b256_rank(y.slot, x.slot);
    lemma_pair_rank(x.prefix().rank(), x.slot.rank(), y.prefix().rank(), y.slot.rank(), pow2_256());
}

} // verus!
