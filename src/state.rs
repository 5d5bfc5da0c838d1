//! Reads of plain state and change sets, header ranges, and the insertion of
//! historical blocks.
use crate::changes::{first_per_key, first_value};
use crate::checkpoints::{PruneModes, StageId};
use crate::errors::ProviderError;
use crate::models::{Account, BlockBodyIndices, BlockNumberAddress, Header, SlotKey};
use crate::primitives::{Address, B256, U256};
use crate::provider::{account_change_bounds, account_key_pairs, account_pairs, slot_key_pairs, slot_pairs, storage_change_bounds, DatabaseProvider, SealedBlockWithSenders};


use crate::table::{TableValue, TableKey};
use vstd::prelude::*;

verus! {

/// The best block and its hash.
#[derive(Clone, Copy, Debug, PartialEq, Eq, Structural)]
pub struct ChainInfo {
    pub best_hash: B256,
    pub best_number: u64,
}

/// The stored headers of blocks `start..upto`, in order.
pub open spec fn headers_upto(p: &DatabaseProvider, start: int, upto: int) -> Seq<Header>
    decreases upto - start,
{
    if upto <= start {
        Seq::empty()
    } else {
        let prev = headers_upto(p, start, upto - 1);
        match p.header_spec((upto - 1) as u64) {
            Some(h) => prev.push(h),
            None => prev,
        }
    }
}

/// The canonical hashes of blocks `start..upto`, in order.
pub open spec fn hashes_upto(p: &DatabaseProvider, start: int, upto: int) -> Seq<B256>
    decreases upto - start,
{
    if upto <= start {
        Seq::empty()
    } else {
        let prev = hashes_upto(p, start, upto - 1);
        match p.block_hash_spec((upto - 1) as u64) {
            Some(h) => prev.push(h),
            None => prev,
        }
    }
}

impl DatabaseProvider {
    pub fn basic_account(&self, address: &Address) -> (r: Option<Account>)
        requires
            self.wf(),
        ensures
            r == self.tx.plain_account_state.lookup(*address),
    {
        match self.tx.plain_account_state.get(address) {
            Some(a) => Some(*a),
            None => None,
        }
    }

    /// Each address with its plain account, in order.
    pub fn basic_accounts(&self, addresses: &Vec<Address>) -> (r: Vec<(Address, Option<Account>)>)
        requires
            self.wf(),
        ensures
            r@.len() == addresses@.len(),
            forall|i: int| 0 <= i < r@.len() ==> #[trigger] r@[i] == (addresses@[i], self.tx.plain_account_state.lookup(addresses@[i])),
    {
        let mut out: Vec<(Address, Option<Account>)> = Vec::new();
        let mut i: usize = 0;
        while i < addresses.len()
            invariant
                self.wf(),
                i <= addresses@.len(),
                out@.len() == i,
                forall|j: int| 0 <= j < i ==> #[trigger] out@[j] == (addresses@[j], self.tx.plain_account_state.lookup(addresses@[j])),
            decreases addresses@.len() - i,
        {
            let a = addresses[i];
            out.push((a, self.basic_account(&a)));
            i = i + 1;
        }
        out
    }

    /// Each slot with its plain value, zero when absent.
    pub fn plain_state_storages(&self, keys: &Vec<SlotKey>) -> (r: Vec<(SlotKey, U256)>)
        requires
            self.wf(),
        ensures
            r@.len() == keys@.len(),
            forall|i: int| 0 <= i < r@.len() ==> #[trigger] r@[i] == (keys@[i], match self.tx.plain_storage_state.lookup(keys@[i]) {
                Some(v) => v,
                None => U256 { hi: 0, lo: 0 },
            }),
    {
        let mut out: Vec<(SlotKey, U256)> = Vec::new();
        let mut i: usize = 0;
        while i < keys.len()
            invariant
                self.wf(),
                i <= keys@.len(),
                out@.len() == i,
                forall|j: int| 0 <= j < i ==> #[trigger] out@[j] == (keys@[j], match self.tx.plain_storage_state.lookup(keys@[j]) {
                    Some(v) => v,
                    None => U256 { hi: 0, lo: 0 },
                }),
            decreases keys@.len() - i,
        {
            let k = keys[i];
            let v = match self.tx.plain_storage_state.get(&k) {
                Some(v) => *v,
                None => U256::zero(),
            };
            out.push((k, v));
            i = i + 1;
        }
        out
    }

    /// Each account changed in blocks `start..=end`, once.
    pub fn changed_accounts_with_range(&self, start: u64, end: u64) -> (r: Vec<Address>)
        requires
            self.wf(),
        ensures
            ({
                let (lo, hi) = account_change_bounds(start, end);
                let pairs = account_pairs(self.tx.account_changesets.rows_between(lo, hi));
                &&& forall|i: int, j: int| 0 <= i < j < r@.len() ==> r@[i] != r@[j]
                &&& forall|a: Address| #[trigger] r@.contains(a) <==> first_value(pairs, a) is Some
            }),
    {
        let lo = BlockNumberAddress { block_number: start, address: Address { hi: 0, mid: 0, lo: 0 } };
        let hi = BlockNumberAddress { block_number: end, address: Address { hi: u64::MAX, mid: u64::MAX, lo: u32::MAX } };
        let rows = self.tx.account_changesets.between(&lo, &hi);
        proof {
            let g = self.tx.account_changesets.rows_between(lo.rank(), hi.rank());
            assert forall|i: int| 0 <= i < rows@.len() implies rows@[i] == g[i] by {
                assert(rows@[i].0 == g[i].0 && rows@[i].1.image() == g[i].1.image());
            }
            assert(rows@ =~= g);
        }
        let pairs = account_key_pairs(&rows);
        let firsts = first_per_key(&pairs);
        let mut out: Vec<Address> = Vec::new();
        let mut i: usize = 0;
        while i < firsts.len()
            invariant
                i <= firsts@.len(),
                out@.len() == i,
                forall|j: int| 0 <= j < i ==> #[trigger] out@[j] == firsts@[j].0,
            decreases firsts@.len() - i,
        {
            out.push(firsts[i].0);
            i = i + 1;
        }
        proof {
            assert forall|a: Address| #[trigger] out@.contains(a) <==> first_value(pairs@, a) is Some by {
                if out@.contains(a) {
                    let j = choose|j: int| 0 <= j < out@.len() && out@[j] == a;
                    assert(first_value(pairs@, firsts@[j].0) == Some(firsts@[j].1));
                }
                if first_value(pairs@, a) is Some {
                    let j = choose|j: int| 0 <= j < firsts@.len() && firsts@[j].0 == a;
                    assert(out@[j] == a);
                }
            }
        }
        out
    }

    /// Each storage slot changed in blocks `start..=end`, once.
    pub fn changed_storages_with_range(&self, start: u64, end: u64) -> (r: Vec<SlotKey>)
        requires
            self.wf(),
        ensures
            ({
                let (lo, hi) = storage_change_bounds(start, end);
                let pairs = slot_pairs(self.tx.storage_changesets.rows_between(lo, hi));
                &&& forall|i: int, j: int| 0 <= i < j < r@.len() ==> r@[i] != r@[j]
                &&& forall|k: SlotKey| #[trigger] r@.contains(k) <==> first_value(pairs, k) is Some
            }),
    {
        let lo = crate::models::BlockNumberSlot { block_number: start, address: Address { hi: 0, mid: 0, lo: 0 }, slot: B256 { a: 0, b: 0, c: 0, d: 0 } };
        let hi = crate::models::BlockNumberSlot { block_number: end, address: Address { hi: u64::MAX, mid: u64::MAX, lo: u32::MAX }, slot: B256 { a: u64::MAX, b: u64::MAX, c: u64::MAX, d: u64::MAX } };
        let rows = self.tx.storage_changesets.between(&lo, &hi);
        proof {
            let g = self.tx.storage_changesets.rows_between(lo.rank(), hi.rank());
            assert forall|i: int| 0 <= i < rows@.len() implies rows@[i] == g[i] by {
                assert(rows@[i].0 == g[i].0 && rows@[i].1.image() == g[i].1.image());
            }
            assert(rows@ =~= g);
        }
        let pairs = slot_key_pairs(&rows);
        let firsts = first_per_key(&pairs);
        let mut out: Vec<SlotKey> = Vec::new();
        let mut i: usize = 0;
        while i < firsts.len()
            invariant
                i <= firsts@.len(),
                out@.len() == i,
                forall|j: int| 0 <= j < i ==> #[trigger] out@[j] == firsts@[j].0,
            decreases firsts@.len() - i,
        {
            out.push(firsts[i].0);
            i = i + 1;
        }
        proof {
            assert forall|k: SlotKey| #[trigger] out@.contains(k) <==> first_value(pairs@, k) is Some by {
                if out@.contains(k) {
                    let j = choose|j: int| 0 <= j < out@.len() && out@[j] == k;
                    assert(first_value(pairs@, firsts@[j].0) == Some(firsts@[j].1));
                }
                if first_value(pairs@, k) is Some {
                    let j = choose|j: int| 0 <= j < firsts@.len() && firsts@[j].0 == k;
                    assert(out@[j] == k);
                }
            }
        }
        out
    }

    /// The account changes of block `block_number`: each changed address with
    /// its value before the block.
    pub fn account_block_changeset(&self, block_number: u64) -> (r: Vec<(Address, Option<Account>)>)
        requires
            self.wf(),
        ensures
            ({
                let (lo, hi) = account_change_bounds(block_number, block_number);
                r@ == account_pairs(self.tx.account_changesets.rows_between(lo, hi))
            }),
    {
        let lo = BlockNumberAddress { block_number, address: Address { hi: 0, mid: 0, lo: 0 } };
        let hi = BlockNumberAddress { block_number, address: Address { hi: u64::MAX, mid: u64::MAX, lo: u32::MAX } };
        let rows = self.tx.account_changesets.between(&lo, &hi);
        proof {
            let g = self.tx.account_changesets.rows_between(lo.rank(), hi.rank());
            assert forall|i: int| 0 <= i < rows@.len() implies rows@[i] == g[i] by {
                assert(rows@[i].0 == g[i].0 && rows@[i].1.image() == g[i].1.image());
            }
            assert(rows@ =~= g);
        }
        account_key_pairs(&rows)
    }

    /// The headers of blocks `start..end` that are stored, in order.
    pub fn headers_range(&self, start: u64, end: u64) -> (r: Vec<Header>)
        requires
            self.wf(),
        ensures
            r@ == headers_upto(self, start as int, end as int),
    {
        let mut out: Vec<Header> = Vec::new();
        let mut n: u64 = start;
        while n < end
            invariant
                self.wf(),
                start <= n,
                n <= end || n == start,
                out@ == headers_upto(self, start as int, n as int),
            decreases end - n,
        {
            match self.header_by_number(n) {
                Some(h) => {
                    proof {
                        assert(self.header_spec(n) == Some(h));
                    }
                    out.push(h);
                },
                None => {},
            }
            n = n + 1;
        }
        out
    }

    /// The canonical hashes of blocks `start..end` that are stored, in order.
    pub fn canonical_hashes_range(&self, start: u64, end: u64) -> (r: Vec<B256>)
        requires
            self.wf(),
        ensures
            r@ == hashes_upto(self, start as int, end as int),
    {
        let mut out: Vec<B256> = Vec::new();
        let mut n: u64 = start;
        while n < end
            invariant
                self.wf(),
                start <= n,
                n <= end || n == start,
                out@ == hashes_upto(self, start as int, n as int),
            decreases end - n,
        {
            match self.block_hash(n) {
                Some(h) => {
                    proof {
                        assert(self.block_hash_spec(n) == Some(h));
                    }
                    out.push(h);
                },
                None => {},
            }
            n = n + 1;
        }
        out
    }

    /// The total difficulty at the block with hash `hash`.
    pub fn header_td(&self, hash: &B256) -> (r: Option<U256>)
        requires
            self.wf(),
        ensures
            r == match self.tx.header_numbers.lookup(*hash) {
                Some(n) => self.header_td_spec(n),
                None => None,
            },
    {
        match self.block_number(hash) {
            Some(n) => self.header_td_by_number(n),
            None => None,
        }
    }

    /// The best block and its hash (zero when unknown).
    pub fn chain_info(&self) -> (r: ChainInfo)
        requires
            self.wf(),
        ensures
            r.best_number == match self.tx.stage_checkpoints.lookup(StageId::Finish) {
                Some(c) => c.block_number,
                None => 0,
            },
            r.best_hash == match self.block_hash_spec(r.best_number) {
                Some(h) => h,
                None => B256 { a: 0, b: 0, c: 0, d: 0 },
            },
    {
        let best_number = self.best_block_number();
        let best_hash = match self.block_hash(best_number) {
            Some(h) => h,
            None => B256::zero(),
        };
        ChainInfo { best_hash, best_number }
    }

    /// Inserts a block for test setups: its header goes to the static files
    /// first (with placeholder headers below it when they are empty, as they
    /// allow no gaps), then the block is written to the tables.
    pub fn insert_historical_block(&mut self, block: SealedBlockWithSenders, prune_modes: Option<PruneModes>) -> (r: Result<BlockBodyIndices, ProviderError>)
        requires
            old(self).wf(),
            block.senders@.len() == block.body@.len(),
        ensures
            final(self).wf(),
            final(self).chain_spec == old(self).chain_spec,
            ({
                let len = old(self).static_file_provider.headers@.len();
                let n = block.header.number;
                &&& (len == 0 || len == n) ==> {
                    &&& final(self).static_file_provider.headers@.len() == n + 1
                    &&& final(self).static_file_provider.headers@[n as int].header == block.header
                    &&& final(self).static_file_provider.headers@[n as int].hash == block.hash
                }
                &&& len == 0 ==> forall|i: int| 0 <= i < n ==> (#[trigger] final(self).static_file_provider.headers@[i]).header.number == i
                &&& (len != 0 && len != n) ==> r == Err::<BlockBodyIndices, ProviderError>(ProviderError::UnexpectedStaticFileBlockNumber {
                    expected: len as u64,
                    got: n,
                }) && final(self).tx == old(self).tx
                &&& r matches Ok(b) ==> {
                    &&& final(self).tx.canonical_headers.view() == old(self).tx.canonical_headers.view().insert(n, block.hash)
                    &&& final(self).tx.headers.view() == old(self).tx.headers.view().insert(n, block.header)
                    &&& final(self).tx.header_numbers.view() == old(self).tx.header_numbers.view().insert(block.hash, n)
                    &&& final(self).tx.block_body_indices.view() == old(self).tx.block_body_indices.view().insert(n, b)
                    &&& b.tx_count == block.body@.len()
                }
            }),
    {
        let number = block.header.number;
        let ttd = if number == 0 {
            block.header.difficulty
        } else {
            let parent_td = match self.header_td_by_number(number - 1) {
                Some(td) => td,
                None => U256::zero(),
            };
            parent_td.wrapping_add(&block.header.difficulty)
        };
        let initially_empty = self.static_file_provider.headers.len() == 0;
        if initially_empty {
            let mut n: u64 = 0;
            while n < number
                invariant
                    self.wf(),
                    self.tx == old(self).tx,
                    self.chain_spec == old(self).chain_spec,
                    n <= number,
                    self.static_file_provider.headers@.len() == n,
                    forall|i: int| 0 <= i < n ==> (#[trigger] self.static_file_provider.headers@[i]).header.number == i,
                decreases number - n,
            {
                let mut prev = block.header;
                prev.number = n;
                let ghost before = self.static_file_provider.headers@;
                match self.static_file_provider.append_header(prev, U256::zero(), B256::zero()) {
                    Ok(()) => {},
                    Err(e) => {
                        return Err(e);
                    },
                }
                proof {
                    assert forall|i: int| 0 <= i < n + 1 implies (#[trigger] self.static_file_provider.headers@[i]).header.number == i by {
                        if i < n {
                            assert(self.static_file_provider.headers@[i] == before[i]);
                        }
                    }
                }
                n = n + 1;
            }
        }
        let ghost before = self.static_file_provider.headers@;
        match self.static_file_provider.append_header(block.header, ttd, block.hash) {
            Ok(()) => {},
            Err(e) => {
                return Err(e);
            },
        }
        proof {
            if old(self).static_file_provider.headers@.len() == 0 {
                assert forall|i: int| 0 <= i < number implies (#[trigger] self.static_file_provider.headers@[i]).header.number == i by {
                    assert(self.static_file_provider.headers@[i] == before[i]);
                }
            }
        }
        self.insert_block(block, prune_modes)
    }
}

} // verus!
