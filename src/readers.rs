//! Reads of headers, transactions, receipts and whole blocks, routed between
//! the static files and the tables.
use crate::errors::ProviderError;
use crate::models::{BlockBodyIndices, Header, Receipt, SealedHeader, TransactionSigned, TransactionSignedNoHash, Withdrawal};
use crate::primitives::{keccak256, keccak256_of, Address, B256};
use crate::provider::DatabaseProvider;
use crate::static_file::{in_static, served_by_static, StaticFileSegment};
use crate::table::{same_rows, TableKey, TableValue};
use vstd::prelude::*;

verus! {

/// Where a transaction sits: its hash, its index in its block, and the block's
/// hash, number, base fee, blob gas and time.
#[derive(Clone, Copy, Debug, PartialEq, Eq, Structural)]
pub struct TransactionMeta {
    pub tx_hash: B256,
    pub index: u64,
    pub block_hash: B256,
    pub block_number: u64,
    pub base_fee: Option<u64>,
    pub excess_blob_gas: Option<u64>,
    pub timestamp: u64,
}

/// A block: header, transactions, ommers and withdrawals.
pub struct Block {
    pub header: Header,
    pub body: Vec<TransactionSigned>,
    pub ommers: Vec<Header>,
    pub withdrawals: Option<Vec<Withdrawal>>,
}

/// A block with the sender of each transaction.
pub struct BlockWithSenders {
    pub block: Block,
    pub senders: Vec<Address>,
}

/// Where the static-file part of `start..end` ends, when the static files
/// hold transactions `0..len`.
pub open spec fn static_split(len: int, start: u64, end: u64) -> int {
    if start >= end || len <= start {
        start as int
    } else if len < end {
        len
    } else {
        end as int
    }
}

/// The hash and number of each stored transaction row.
pub open spec fn tx_hash_rows(rows: Seq<(u64, TransactionSignedNoHash)>) -> Seq<(B256, u64)> {
    Seq::new(rows.len(), |i: int| (keccak256_of(rows[i].1.encoded@), rows[i].0))
}

/// The hash and number of static-file transactions `lo..hi`.
pub open spec fn static_tx_hashes(txs: Seq<TransactionSignedNoHash>, lo: int, hi: int) -> Seq<(B256, u64)> {
    Seq::new((hi - lo) as nat, |i: int| (keccak256_of(txs[lo + i].encoded@), (lo + i) as u64))
}

/// Each stored transaction with its hash.
pub fn with_hashes(stored: &Vec<TransactionSignedNoHash>) -> (r: Vec<TransactionSigned>)
    ensures
        r@.len() == stored@.len(),
        forall|i: int| 0 <= i < r@.len() ==> (#[trigger] r@[i]).encoded@ == stored@[i].encoded@
            && r@[i].hash == keccak256_of(r@[i].encoded@),
{
    let mut out: Vec<TransactionSigned> = Vec::new();
    let mut i: usize = 0;
    while i < stored.len()
        invariant
            i <= stored@.len(),
            out@.len() == i,
            forall|j: int| 0 <= j < i ==> (#[trigger] out@[j]).encoded@ == stored@[j].encoded@
                && out@[j].hash == keccak256_of(out@[j].encoded@),
        decreases stored@.len() - i,
    {
        let encoded = crate::models::copy_vec(&stored[i].encoded);
        let hash = keccak256(&encoded);
        out.push(TransactionSigned { hash, encoded });
        i = i + 1;
    }
    out
}

/// Blocks `0..=last` all have body indices, the first starting at
/// transaction zero and each starting where the one before ends.
pub open spec fn bodies_contiguous(b: Map<u64, BlockBodyIndices>, last: u64) -> bool {
    &&& forall|n: u64| n <= last ==> #[trigger] b.contains_key(n) && b[n].fits()
    &&& b.contains_key(0) && b[0].first_tx_num == 0
    &&& forall|n: u64| 0 < n <= last ==> (#[trigger] b[n]).first_tx_num == b[(n - 1) as u64].end()
}

/// The transaction-block anchors are exactly the last transaction number of
/// each non-empty block in `0..=last`, mapped to that block.
pub open spec fn anchors_match(a: Map<u64, u64>, b: Map<u64, BlockBodyIndices>, last: u64) -> bool {
    &&& forall|n: u64| n <= last && (#[trigger] b[n]).tx_count > 0 ==> a.contains_key((b[n].end() - 1) as u64)
        && a[(b[n].end() - 1) as u64] == n
    &&& forall|k: u64| #[trigger] a.contains_key(k) ==> exists|n: u64| n <= last && b[n].tx_count > 0 && k == b[n].end() - 1
}

proof fn lemma_bodies_ordered(b: Map<u64, BlockBodyIndices>, last: u64, m: u64, n: u64)
    requires
        bodies_contiguous(b, last),
        m < n <= last,
    ensures
        b[m].end() <= b[n].first_tx_num,
    decreases n - m,
{
    assert(b[n].first_tx_num == b[(n - 1) as u64].end());
    if m < n - 1 {
        lemma_bodies_ordered(b, last, m, (n - 1) as u64);
    }
}

proof fn lemma_enclosing_block(b: Map<u64, BlockBodyIndices>, last: u64, t: u64) -> (n: u64)
    requires
        bodies_contiguous(b, last),
        t < b[last].end(),
    ensures
        n <= last,
        b[n].first_tx_num <= t < b[n].end(),
    decreases last,
{
    if t >= b[last].first_tx_num || last == 0 {
        last
    } else {
        assert(b[last].first_tx_num == b[(last - 1) as u64].end());
        lemma_enclosing_block(b, (last - 1) as u64, t)
    }
}

/// The law of transaction numbering: when the body indices of blocks
/// `0..=last` are contiguous and the anchors mark each non-empty block's last
/// transaction, every transaction number below the end of block `last` lies
/// in exactly one block, and the first anchor at or after it names that
/// block.
pub proof fn lemma_anchor_finds_block(a: Map<u64, u64>, b: Map<u64, BlockBodyIndices>, last: u64, t: u64)
    requires
        bodies_contiguous(b, last),
        anchors_match(a, b, last),
        t < b[last].end(),
    ensures
        exists|n: u64| {
            &&& n <= last
            &&& b[n].first_tx_num <= t < b[n].end()
            &&& forall|m: u64| m <= last && #[trigger] b[m].first_tx_num <= t < b[m].end() ==> m == n
            &&& a.contains_key((b[n].end() - 1) as u64) && a[(b[n].end() - 1) as u64] == n
            &&& forall|k: u64| #[trigger] a.contains_key(k) && k >= t ==> b[n].end() - 1 <= k
        },
{
    let n = lemma_enclosing_block(b, last, t);
    assert forall|m: u64| m <= last && #[trigger] b[m].first_tx_num <= t < b[m].end() implies m == n by {
        if m < n {
            lemma_bodies_ordered(b, last, m, n);
        } else if m > n {
            lemma_bodies_ordered(b, last, n, m);
        }
    }
    assert(b[n].tx_count > 0);
    assert forall|k: u64| #[trigger] a.contains_key(k) && k >= t implies b[n].end() - 1 <= k by {
        let m = choose|m: u64| m <= last && b[m].tx_count > 0 && k == b[m].end() - 1;
        if m < n {
            lemma_bodies_ordered(b, last, m, n);
        } else if m > n {
            lemma_bodies_ordered(b, last, n, m);
        }
    }
}

/// `t` is the first transaction-block anchor at or after `id`.
pub open spec fn anchor_at(p: &DatabaseProvider, id: u64, t: u64) -> bool {
    &&& p.tx.transaction_blocks.view().contains_key(t)
    &&& t >= id
    &&& forall|u: u64| #[trigger] p.tx.transaction_blocks.view().contains_key(u) && u >= id ==> t <= u
}

/// The block that the first anchor at or after `id` names.
pub open spec fn anchor_block(p: &DatabaseProvider, id: u64) -> Option<u64> {
    if exists|t: u64| anchor_at(p, id, t) {
        Some(p.tx.transaction_blocks.view()[choose|t: u64| anchor_at(p, id, t)])
    } else {
        None
    }
}

/// Everything that a lookup by hash with metadata needs is there: the
/// transaction's number and row, its block's anchor, header, hash and body
/// indices, with the transaction at or after the block's first.
pub open spec fn meta_found(p: &DatabaseProvider, hash: B256) -> bool {
    match p.tx.transaction_hash_numbers.lookup(hash) {
        Some(id) => p.tx_spec(id) is Some && match anchor_block(p, id) {
            Some(b) => p.header_spec(b) is Some && p.block_hash_spec(b) is Some && match p.tx.block_body_indices.lookup(b) {
                Some(body) => body.first_tx_num <= id,
                None => false,
            },
            None => false,
        },
        None => false,
    }
}

/// The lookup by hash reaches a block whose header has no hash.
pub open spec fn meta_broken(p: &DatabaseProvider, hash: B256) -> bool {
    match p.tx.transaction_hash_numbers.lookup(hash) {
        Some(id) => p.tx_spec(id) is Some && match anchor_block(p, id) {
            Some(b) => p.header_spec(b) is Some && p.block_hash_spec(b) is None,
            None => false,
        },
        None => false,
    }
}

/// Receipt `j` of a block can be read.
pub open spec fn receipt_avail_at(p: &DatabaseProvider, body: BlockBodyIndices, j: int) -> bool {
    body.first_tx_num + j <= u64::MAX && p.receipt_spec((body.first_tx_num + j) as u64) is Some
}

/// Block `j` has a header and hash, numbered at most `end`, that the
/// predicate accepts.
pub open spec fn header_accepted<F: Fn(&SealedHeader) -> bool>(p: &DatabaseProvider, predicate: F, j: u64, end: u64) -> bool {
    match (p.header_spec(j), p.block_hash_spec(j)) {
        (Some(h), Some(x)) => h.number <= end && predicate.ensures((&SealedHeader { header: h, hash: x },), true),
        _ => false,
    }
}

/// Block `n` has a header numbered `n` and body indices.
pub open spec fn block_entry(p: &DatabaseProvider, n: u64) -> bool {
    p.header_spec(n) matches Some(h) && h.number == n && p.tx.block_body_indices.view().contains_key(n)
}

/// `e` is block `n`'s body indices, header, ommers and withdrawals.
pub open spec fn part_ok(p: &DatabaseProvider, n: u64, e: (BlockBodyIndices, Header, Vec<Header>, Option<Vec<Withdrawal>>)) -> bool {
    &&& p.tx.block_body_indices.lookup(n) == Some(e.0)
    &&& p.header_spec(n) == Some(e.1)
    &&& e.2@ == if p.chain_spec.final_paris_td_spec(n) is Some {
        Seq::empty()
    } else {
        match p.tx.block_ommers.lookup(n) {
            Some(o) => o@,
            None => Seq::empty(),
        }
    }
    &&& if p.chain_spec.shanghai_active_spec(e.1.timestamp) {
        e.3 matches Some(w) && w@ == match p.tx.block_withdrawals.lookup(n) {
            Some(x) => x@,
            None => Seq::empty(),
        }
    } else {
        e.3 is None
    }
}

/// Transaction `j` of a block is stored.
pub open spec fn tx_avail_at(p: &DatabaseProvider, body: BlockBodyIndices, j: int) -> bool {
    body.first_tx_num + j <= u64::MAX && p.tx_spec((body.first_tx_num + j) as u64) is Some
}

/// Every transaction of a block is stored.
pub open spec fn txs_available(p: &DatabaseProvider, body: BlockBodyIndices) -> bool {
    forall|j: int| 0 <= j < body.tx_count ==> #[trigger] tx_avail_at(p, body, j)
}

/// `v` is a block's transactions, as stored, with their hashes.
pub open spec fn txs_ok(p: &DatabaseProvider, body: BlockBodyIndices, v: Seq<TransactionSigned>) -> bool {
    &&& v.len() == body.tx_count
    &&& forall|j: int| 0 <= j < body.tx_count ==> p.tx_spec((body.first_tx_num + j) as u64) == Some((#[trigger] v[j]).encoded@)
        && v[j].hash == keccak256_of(v[j].encoded@)
}

/// Block `n` has a header, body indices and all its transactions.
pub open spec fn block_full(p: &DatabaseProvider, n: u64) -> bool {
    block_entry(p, n) && txs_available(p, p.tx.block_body_indices.view()[n])
}

/// `b` is block `n`.
pub open spec fn block_ok(p: &DatabaseProvider, n: u64, b: Block) -> bool {
    &&& part_ok(p, n, (p.tx.block_body_indices.view()[n], b.header, b.ommers, b.withdrawals))
    &&& txs_ok(p, p.tx.block_body_indices.view()[n], b.body@)
}

/// The sender of transaction `j` of a block is known.
pub open spec fn sender_avail_at(p: &DatabaseProvider, recovered: Seq<(u64, Address)>, body: BlockBodyIndices, j: int) -> bool {
    body.first_tx_num + j <= u64::MAX && crate::blocks::sender_of(p, recovered, (body.first_tx_num + j) as u64) is Some
}

/// Every sender of a block is known.
pub open spec fn senders_ok(p: &DatabaseProvider, recovered: Seq<(u64, Address)>, body: BlockBodyIndices) -> bool {
    forall|j: int| 0 <= j < body.tx_count ==> #[trigger] sender_avail_at(p, recovered, body, j)
}

/// `b` is block `n` with its senders.
pub open spec fn with_senders_ok(p: &DatabaseProvider, recovered: Seq<(u64, Address)>, n: u64, b: BlockWithSenders) -> bool {
    let body = p.tx.block_body_indices.view()[n];
    &&& block_ok(p, n, b.block)
    &&& b.senders@.len() == body.tx_count
    &&& forall|j: int| 0 <= j < body.tx_count ==> crate::blocks::sender_of(p, recovered, (body.first_tx_num + j) as u64) == Some(#[trigger] b.senders@[j])
}

/// The numbers in `start..upto` of blocks with a header and body indices,
/// ascending.
pub open spec fn entries_upto(p: &DatabaseProvider, start: int, upto: int) -> Seq<u64>
    decreases upto - start,
{
    if upto <= start {
        Seq::empty()
    } else {
        let prev = entries_upto(p, start, upto - 1);
        if block_entry(p, (upto - 1) as u64) {
            prev.push((upto - 1) as u64)
        } else {
            prev
        }
    }
}

/// The numbers in `start..upto` of blocks that are full, ascending.
pub open spec fn full_upto(p: &DatabaseProvider, start: int, upto: int) -> Seq<u64>
    decreases upto - start,
{
    if upto <= start {
        Seq::empty()
    } else {
        let prev = full_upto(p, start, upto - 1);
        if block_full(p, (upto - 1) as u64) {
            prev.push((upto - 1) as u64)
        } else {
            prev
        }
    }
}

/// The numbers in `start..=end` of blocks with a header and body indices.
pub open spec fn entries_range(p: &DatabaseProvider, start: u64, end: u64) -> Seq<u64> {
    if start <= end {
        entries_upto(p, start as int, end + 1)
    } else {
        Seq::empty()
    }
}

/// The numbers in `start..=end` of full blocks.
pub open spec fn full_range(p: &DatabaseProvider, start: u64, end: u64) -> Seq<u64> {
    if start <= end {
        full_upto(p, start as int, end + 1)
    } else {
        Seq::empty()
    }
}

proof fn lemma_full_upto_prefix(p: &DatabaseProvider, start: int, m: int, upto: int)
    requires
        start <= m <= upto,
    ensures
        full_upto(p, start, m).len() <= full_upto(p, start, upto).len(),
        forall|i: int| 0 <= i < full_upto(p, start, m).len() ==> full_upto(p, start, upto)[i] == #[trigger] full_upto(p, start, m)[i],
    decreases upto - m,
{
    if m < upto {
        lemma_full_upto_prefix(p, start, m, upto - 1);
    }
}

impl DatabaseProvider {
    /// The stored form of transaction `id`, from the static files if they
    /// hold it, else from the tables.
    pub open spec fn tx_spec(&self, id: u64) -> Option<Seq<u8>> {
        if in_static(self.static_head(StaticFileSegment::Transactions), id) {
            Some(self.static_file_provider.transactions@[id as int].encoded@)
        } else {
            match self.tx.transactions.lookup(id) {
                Some(t) => Some(t.encoded@),
                None => None,
            }
        }
    }

    /// The receipt of transaction `id`, from the static files if they hold
    /// it, else from the tables.
    pub open spec fn receipt_spec(&self, id: u64) -> Option<(bool, u64, Seq<crate::log::LogImage>)> {
        if in_static(self.static_head(StaticFileSegment::Receipts), id) {
            Some(self.static_file_provider.receipts@[id as int].image())
        } else {
            match self.tx.receipts.lookup(id) {
                Some(x) => Some(x.image()),
                None => None,
            }
        }
    }

    pub fn transaction_by_id_no_hash(&self, id: u64) -> (r: Option<TransactionSignedNoHash>)
        requires
            self.wf(),
        ensures
            match r {
                Some(t) => self.tx_spec(id) == Some(t.encoded@),
                None => self.tx_spec(id) is None,
            },
    {
        let head = self.static_file_provider.get_highest_static_file_block(StaticFileSegment::Transactions);
        if served_by_static(head, id) {
            self.static_file_provider.transaction_by_id(id)
        } else {
            match self.tx.transactions.get(&id) {
                Some(t) => Some(t.duplicate()),
                None => None,
            }
        }
    }

    /// Transaction `id` with its hash.
    pub fn transaction_by_id(&self, id: u64) -> (r: Option<TransactionSigned>)
        requires
            self.wf(),
        ensures
            match r {
                Some(t) => self.tx_spec(id) == Some(t.encoded@) && t.hash == keccak256_of(t.encoded@),
                None => self.tx_spec(id) is None,
            },
    {
        match self.transaction_by_id_no_hash(id) {
            Some(t) => {
                let hash = keccak256(&t.encoded);
                Some(TransactionSigned { hash, encoded: t.encoded })
            },
            None => None,
        }
    }

    pub fn transaction_id(&self, hash: &B256) -> (r: Option<u64>)
        requires
            self.wf(),
        ensures
            r == self.tx.transaction_hash_numbers.lookup(*hash),
    {
        match self.tx.transaction_hash_numbers.get(hash) {
            Some(n) => Some(*n),
            None => None,
        }
    }

    /// The transaction with hash `hash`, through the hash lookup.
    pub fn transaction_by_hash(&self, hash: &B256) -> (r: Option<TransactionSigned>)
        requires
            self.wf(),
        ensures
            match self.tx.transaction_hash_numbers.lookup(*hash) {
                Some(id) => match r {
                    Some(t) => self.tx_spec(id) == Some(t.encoded@) && t.hash == *hash,
                    None => self.tx_spec(id) is None,
                },
                None => r is None,
            },
    {
        match self.transaction_id(hash) {
            Some(id) => match self.transaction_by_id_no_hash(id) {
                Some(t) => Some(TransactionSigned { hash: *hash, encoded: t.encoded }),
                None => None,
            },
            None => None,
        }
    }

    /// The block holding transaction `id`: the anchor at the first
    /// transaction number at or after `id`.
    pub fn transaction_block(&self, id: u64) -> (r: Option<u64>)
        requires
            self.wf(),
        ensures
            r == anchor_block(self, id),
    {
        match self.tx.transaction_blocks.seek(&id) {
            Some((a, b)) => {
                proof {
                    assert(anchor_at(self, id, a));
                    let t = choose|t: u64| anchor_at(self, id, t);
                    assert(t <= a && a <= t);
                }
                Some(*b)
            },
            None => {
                proof {
                    if exists|t: u64| anchor_at(self, id, t) {
                        let t = choose|t: u64| anchor_at(self, id, t);
                        assert(self.tx.transaction_blocks.view().contains_key(t));
                    }
                }
                None
            },
        }
    }

    /// The header of block `number` with its hash; a header without a hash
    /// is an error.
    pub fn sealed_header(&self, number: u64) -> (r: Result<Option<SealedHeader>, ProviderError>)
        requires
            self.wf(),
        ensures
            match self.header_spec(number) {
                None => r == Ok::<Option<SealedHeader>, ProviderError>(None),
                Some(h) => match self.block_hash_spec(number) {
                    Some(hash) => r == Ok::<Option<SealedHeader>, ProviderError>(Some(SealedHeader { header: h, hash })),
                    None => r == Err::<Option<SealedHeader>, ProviderError>(ProviderError::HeaderNotFound(number)),
                },
            },
    {
        match self.header_by_number(number) {
            Some(h) => match self.block_hash(number) {
                Some(hash) => Ok(Some(SealedHeader { header: h, hash })),
                None => Err(ProviderError::HeaderNotFound(number)),
            },
            None => Ok(None),
        }
    }

    /// The header of the block with hash `hash`.
    pub fn header(&self, hash: &B256) -> (r: Option<Header>)
        requires
            self.wf(),
        ensures
            r == match self.tx.header_numbers.lookup(*hash) {
                Some(n) => self.header_spec(n),
                None => None,
            },
    {
        match self.block_number(hash) {
            Some(n) => self.header_by_number(n),
            None => None,
        }
    }

    /// A transaction found by hash, with where it sits: the block is the one
    /// anchored at or after its number, and its index is its offset from the
    /// block's first transaction.
    pub fn transaction_by_hash_with_meta(&self, tx_hash: &B256) -> (r: Result<Option<(TransactionSigned, TransactionMeta)>, ProviderError>)
        requires
            self.wf(),
        ensures
            (r matches Ok(Some(_))) <==> meta_found(self, *tx_hash),
            r is Err <==> meta_broken(self, *tx_hash),
            r matches Ok(Some((t, meta))) ==> {
                &&& self.tx.transaction_hash_numbers.lookup(*tx_hash) matches Some(id)
                &&& anchor_block(self, id) == Some(meta.block_number)
                &&& self.tx_spec(id) == Some(t.encoded@)
                &&& t.hash == *tx_hash
                &&& meta.tx_hash == *tx_hash
                &&& self.header_spec(meta.block_number) matches Some(h)
                &&& self.block_hash_spec(meta.block_number) == Some(meta.block_hash)
                &&& h.timestamp == meta.timestamp
                &&& h.base_fee_per_gas == meta.base_fee
                &&& h.excess_blob_gas == meta.excess_blob_gas
                &&& self.tx.block_body_indices.lookup(meta.block_number) matches Some(body)
                &&& meta.index == id - body.first_tx_num
            },
            self.tx.transaction_hash_numbers.lookup(*tx_hash) is None ==> r == Ok::<Option<(TransactionSigned, TransactionMeta)>, ProviderError>(None),
    {
        let id = match self.transaction_id(tx_hash) {
            Some(id) => id,
            None => {
                return Ok(None);
            },
        };
        let tx = match self.transaction_by_id_no_hash(id) {
            Some(t) => t,
            None => {
                return Ok(None);
            },
        };
        let block_number = match self.transaction_block(id) {
            Some(b) => b,
            None => {
                return Ok(None);
            },
        };
        let sealed = match self.sealed_header(block_number)? {
            Some(h) => h,
            None => {
                return Ok(None);
            },
        };
        let body = match self.block_body_indices(block_number) {
            Some(b) => b,
            None => {
                return Ok(None);
            },
        };
        if id < body.first_tx_num {
            return Ok(None);
        }
        let meta = TransactionMeta {
            tx_hash: *tx_hash,
            index: id - body.first_tx_num,
            block_hash: sealed.hash,
            block_number,
            base_fee: sealed.header.base_fee_per_gas,
            excess_blob_gas: sealed.header.excess_blob_gas,
            timestamp: sealed.header.timestamp,
        };
        Ok(Some((TransactionSigned { hash: *tx_hash, encoded: tx.encoded }, meta)))
    }

    /// Stored transactions numbered `start..end`, routed between the static
    /// files and the tables.
    pub fn transactions_by_tx_range(&self, start: u64, end: u64) -> (r: Vec<TransactionSignedNoHash>)
        requires
            self.wf(),
        ensures
            ({
                let s_end = static_split(self.static_file_provider.transactions@.len() as int, start, end);
                &&& forall|i: int| 0 <= i < s_end - start ==> #[trigger] r@[i].encoded@ == self.static_file_provider.transactions@[start + i].encoded@
                &&& r@.len() == (s_end - start) + if s_end < end { self.tx.transactions.rows_between(s_end, end - 1).len() } else { 0 }
                &&& s_end < end ==> forall|i: int| 0 <= i < self.tx.transactions.rows_between(s_end, end - 1).len() ==>
                    (#[trigger] r@[s_end - start + i]).encoded@ == self.tx.transactions.rows_between(s_end, end - 1)[i].1.encoded@
            }),
    {
        let n = self.static_file_provider.transactions.len();
        let s_end: u64 = if start >= end || (n as u128) <= (start as u128) {
            start
        } else if (n as u128) < (end as u128) {
            n as u64
        } else {
            end
        };
        let mut out: Vec<TransactionSignedNoHash> = Vec::new();
        let mut t: u64 = start;
        while t < s_end
            invariant
                self.wf(),
                start <= t <= s_end,
                n == self.static_file_provider.transactions@.len(),
                s_end > start ==> s_end <= n,
                out@.len() == t - start,
                forall|i: int| 0 <= i < t - start ==> #[trigger] out@[i].encoded@ == self.static_file_provider.transactions@[start + i].encoded@,
            decreases s_end - t,
        {
            let k: usize = t as usize;
            proof {
                assert(t < n);
                assert(k == t);
            }
            let ghost prev = out@;
            let d = self.static_file_provider.transactions[k].duplicate();
            out.push(d);
            proof {
                assert forall|i: int| 0 <= i < t + 1 - start implies #[trigger] out@[i].encoded@ == self.static_file_provider.transactions@[start + i].encoded@ by {
                    if i < prev.len() {
                        assert(out@[i] == prev[i]);
                        assert(prev[i].encoded@ == self.static_file_provider.transactions@[start + i].encoded@);
                    } else {
                        assert(out@[i] == d);
                        assert(start + i == t);
                        assert(d.image() == self.static_file_provider.transactions@[k as int].image());
                        assert(d.encoded@ == self.static_file_provider.transactions@[k as int].encoded@);
                    }
                }
            }
            t = t + 1;
        }
        if s_end < end {
            let last = end - 1;
            let rows = self.tx.transactions.between(&s_end, &last);
            let ghost g = self.tx.transactions.rows_between(s_end as int, last as int);
            proof {
                assert(same_rows(rows@, self.tx.transactions.rows_between(s_end.rank(), last.rank())));
            }
            let ghost base = out@.len();
            let mut i: usize = 0;
            while i < rows.len()
                invariant
                    self.wf(),
                    same_rows(rows@, g),
                    i <= rows@.len(),
                    out@.len() == base + i,
                    base == s_end - start,
                    forall|x: int| 0 <= x < s_end - start ==> #[trigger] out@[x].encoded@ == self.static_file_provider.transactions@[start + x].encoded@,
                    forall|x: int| 0 <= x < i ==> (#[trigger] out@[base + x]).encoded@ == g[x].1.encoded@,
                decreases rows@.len() - i,
            {
                let ghost prev = out@;
                let d = rows[i].1.duplicate();
                out.push(d);
                proof {
                    assert(rows@[i as int].0 == g[i as int].0 && rows@[i as int].1.image() == g[i as int].1.image());
                    assert forall|x: int| 0 <= x < s_end - start implies #[trigger] out@[x].encoded@ == self.static_file_provider.transactions@[start + x].encoded@ by {
                        assert(out@[x] == prev[x]);
                        assert(prev[x].encoded@ == self.static_file_provider.transactions@[start + x].encoded@);
                    }
                    assert forall|x: int| 0 <= x < i + 1 implies (#[trigger] out@[base + x]).encoded@ == g[x].1.encoded@ by {
                        if x < i {
                            assert(out@[base + x] == prev[base + x]);
                        }
                    }
                }
                i = i + 1;
            }
        }
        out
    }

    /// The transactions of block `number`, when its body indices and all
    /// its transactions are stored.
    pub fn transactions_by_block(&self, number: u64) -> (r: Option<Vec<TransactionSigned>>)
        requires
            self.wf(),
        ensures
            r is Some <==> self.tx.block_body_indices.view().contains_key(number)
                && txs_available(self, self.tx.block_body_indices.view()[number]),
            r matches Some(v) ==> txs_ok(self, self.tx.block_body_indices.view()[number], v@),
    {
        let body = match self.block_body_indices(number) {
            Some(b) => b,
            None => {
                return None;
            },
        };
        self.block_txs_at(body)
    }

    /// The receipt of transaction `id`, routed like the transaction.
    pub fn receipt(&self, id: u64) -> (r: Option<Receipt>)
        requires
            self.wf(),
        ensures
            match r {
                Some(x) => self.receipt_spec(id) == Some(x.image()),
                None => self.receipt_spec(id) is None,
            },
    {
        let head = self.static_file_provider.get_highest_static_file_block(StaticFileSegment::Receipts);
        if served_by_static(head, id) {
            let n = self.static_file_provider.receipts.len();
            let k: usize = id as usize;
            proof {
                assert(id < self.static_file_provider.receipts@.len());
                assert(id < n);
                assert(k == id);
            }
            Some(self.static_file_provider.receipts[k].duplicate())
        } else {
            match self.tx.receipts.get(&id) {
                Some(rc) => Some(rc.duplicate()),
                None => None,
            }
        }
    }

    /// The receipt of the transaction with hash `hash`.
    pub fn receipt_by_hash(&self, hash: &B256) -> (r: Option<Receipt>)
        requires
            self.wf(),
        ensures
            match self.tx.transaction_hash_numbers.lookup(*hash) {
                Some(id) => match r {
                    Some(x) => self.receipt_spec(id) == Some(x.image()),
                    None => self.receipt_spec(id) is None,
                },
                None => r is None,
            },
    {
        match self.transaction_id(hash) {
            Some(id) => self.receipt(id),
            None => None,
        }
    }

    /// The receipts of block `number`, if its body indices are stored: the
    /// receipt of each of its transactions that has one, in order.
    pub fn receipts_by_block(&self, number: u64) -> (r: Option<Vec<Receipt>>)
        requires
            self.wf(),
        ensures
            r is Some <==> self.tx.block_body_indices.view().contains_key(number),
            r matches Some(v) ==> {
                let body = self.tx.block_body_indices.view()[number];
                (forall|j: int| 0 <= j < body.tx_count ==> #[trigger] receipt_avail_at(self, body, j)) ==> {
                    &&& v@.len() == body.tx_count
                    &&& forall|j: int| 0 <= j < body.tx_count ==> self.receipt_spec((body.first_tx_num + j) as u64) == Some((#[trigger] v@[j]).image())
                }
            },
    {
        let body = match self.block_body_indices(number) {
            Some(b) => b,
            None => {
                return None;
            },
        };
        let mut out: Vec<Receipt> = Vec::new();
        let mut t: u64 = 0;
        while t < body.tx_count
            invariant
                self.wf(),
                t <= body.tx_count,
                (forall|j: int| 0 <= j < t ==> #[trigger] receipt_avail_at(self, body, j)) ==> {
                    &&& out@.len() == t
                    &&& forall|j: int| 0 <= j < t ==> self.receipt_spec((body.first_tx_num + j) as u64) == Some((#[trigger] out@[j]).image())
                },
            decreases body.tx_count - t,
        {
            let ghost prev = out@;
            if body.first_tx_num <= u64::MAX - t {
                match self.receipt(body.first_tx_num + t) {
                    Some(rc) => out.push(rc),
                    None => {},
                }
            }
            proof {
                if forall|j: int| 0 <= j < t + 1 ==> #[trigger] receipt_avail_at(self, body, j) {
                    assert(receipt_avail_at(self, body, t as int));
                    assert forall|j: int| 0 <= j < t implies #[trigger] receipt_avail_at(self, body, j) by {
                        assert(receipt_avail_at(self, body, j));
                    }
                    assert forall|j: int| 0 <= j < t + 1 implies self.receipt_spec((body.first_tx_num + j) as u64) == Some((#[trigger] out@[j]).image()) by {
                        if j < t {
                            assert(out@[j] == prev[j]);
                        }
                    }
                }
            }
            t = t + 1;
        }
        Some(out)
    }

    /// The withdrawals of block `number`: from Shanghai on (by `timestamp`)
    /// the stored list or an empty one, before it none.
    pub fn withdrawals_by_block(&self, number: u64, timestamp: u64) -> (r: Option<Vec<Withdrawal>>)
        requires
            self.wf(),
        ensures
            !self.chain_spec.shanghai_active_spec(timestamp) ==> r is None,
            self.chain_spec.shanghai_active_spec(timestamp) ==> (r matches Some(w) && w@ == match self.tx.block_withdrawals.lookup(number) {
                Some(stored) => stored@,
                None => Seq::empty(),
            }),
    {
        if !self.chain_spec.is_shanghai_active_at_timestamp(timestamp) {
            return None;
        }
        match self.tx.block_withdrawals.get(&number) {
            Some(w) => Some(w.duplicate()),
            None => Some(Vec::new()),
        }
    }

    /// The withdrawal with the highest index in the last block that has
    /// any.
    pub fn latest_withdrawal(&self) -> (r: Option<Withdrawal>)
        requires
            self.wf(),
        ensures
            r == if self.tx.block_withdrawals.rows().len() == 0 {
                None
            } else {
                let w = self.tx.block_withdrawals.rows().last().1@;
                if w.len() == 0 {
                    None
                } else {
                    Some(w.last())
                }
            },
    {
        match self.tx.block_withdrawals.last() {
            Some((_, w)) => {
                if w.len() > 0 {
                    Some(w[w.len() - 1])
                } else {
                    None
                }
            },
            None => None,
        }
    }

    /// The ommers of block `number`: none after the merge, else the stored
    /// list, if any.
    pub fn ommers(&self, number: u64) -> (r: Option<Vec<Header>>)
        requires
            self.wf(),
        ensures
            self.chain_spec.final_paris_td_spec(number) is Some ==> (r matches Some(o) && o@.len() == 0),
            self.chain_spec.final_paris_td_spec(number) is None ==> match self.tx.block_ommers.lookup(number) {
                Some(o) => (r matches Some(x) && x@ == o@),
                None => r is None,
            },
    {
        if self.chain_spec.final_paris_total_difficulty(number).is_some() {
            return Some(Vec::new());
        }
        match self.tx.block_ommers.get(&number) {
            Some(o) => Some(o.duplicate()),
            None => None,
        }
    }

    /// The parts of block `n` other than its transactions, when it has a
    /// header (numbered `n`) and body indices: ommers are none after the
    /// merge and otherwise the stored ones or none; withdrawals are the
    /// stored ones or an empty list from Shanghai on, and absent before.
    pub fn block_parts_at(&self, n: u64) -> (r: Option<(BlockBodyIndices, Header, Vec<Header>, Option<Vec<Withdrawal>>)>)
        requires
            self.wf(),
        ensures
            r is Some <==> block_entry(self, n),
            r matches Some(e) ==> part_ok(self, n, e),
    {
        let header = match self.header_by_number(n) {
            Some(h) => h,
            None => {
                return None;
            },
        };
        if header.number != n {
            return None;
        }
        let body = match self.block_body_indices(n) {
            Some(b) => b,
            None => {
                return None;
            },
        };
        let withdrawals = if self.chain_spec.is_shanghai_active_at_timestamp(header.timestamp) {
            match self.tx.block_withdrawals.get(&n) {
                Some(w) => Some(w.duplicate()),
                None => Some(Vec::new()),
            }
        } else {
            None
        };
        let ommers = if self.chain_spec.final_paris_total_difficulty(n).is_some() {
            Vec::new()
        } else {
            match self.tx.block_ommers.get(&n) {
                Some(o) => o.duplicate(),
                None => Vec::new(),
            }
        };
        Some((body, header, ommers, withdrawals))
    }

    /// The transactions of a block with their hashes, when every one of them
    /// is stored.
    pub fn block_txs_at(&self, body: BlockBodyIndices) -> (r: Option<Vec<TransactionSigned>>)
        requires
            self.wf(),
        ensures
            r is Some <==> txs_available(self, body),
            r matches Some(v) ==> txs_ok(self, body, v@),
    {
        let mut out: Vec<TransactionSigned> = Vec::new();
        let mut j: u64 = 0;
        while j < body.tx_count
            invariant
                self.wf(),
                j <= body.tx_count,
                out@.len() == j,
                forall|k: int| 0 <= k < j ==> #[trigger] tx_avail_at(self, body, k),
                forall|k: int| 0 <= k < j ==> self.tx_spec((body.first_tx_num + k) as u64) == Some((#[trigger] out@[k]).encoded@)
                    && out@[k].hash == keccak256_of(out@[k].encoded@),
            decreases body.tx_count - j,
        {
            if body.first_tx_num > u64::MAX - j {
                proof {
                    assert(!tx_avail_at(self, body, j as int));
                }
                return None;
            }
            match self.transaction_by_id(body.first_tx_num + j) {
                Some(t) => {
                    out.push(t);
                },
                None => {
                    proof {
                        assert(!tx_avail_at(self, body, j as int));
                    }
                    return None;
                },
            }
            j = j + 1;
        }
        Some(out)
    }

    /// Block `number`, when it has a header, body indices and all its
    /// transactions.
    pub fn block(&self, number: u64) -> (r: Option<Block>)
        requires
            self.wf(),
        ensures
            r is Some <==> block_full(self, number),
            r matches Some(b) ==> block_ok(self, number, b),
    {
        let (body, header, ommers, withdrawals) = match self.block_parts_at(number) {
            Some(p) => p,
            None => {
                return None;
            },
        };
        let txs = match self.block_txs_at(body) {
            Some(t) => t,
            None => {
                return None;
            },
        };
        Some(Block { header, body: txs, ommers, withdrawals })
    }

    /// The parts of each block in `start..=end` that has a header and body
    /// indices, one per block in ascending order.
    pub fn process_block_range(&self, start: u64, end: u64) -> (r: Vec<(BlockBodyIndices, Header, Vec<Header>, Option<Vec<Withdrawal>>)>)
        requires
            self.wf(),
        ensures
            ({
                let ns = entries_range(self, start, end);
                &&& r@.len() == ns.len()
                &&& forall|i: int| 0 <= i < ns.len() ==> part_ok(self, ns[i], #[trigger] r@[i])
            }),
    {
        let mut out: Vec<(BlockBodyIndices, Header, Vec<Header>, Option<Vec<Withdrawal>>)> = Vec::new();
        if start > end {
            return out;
        }
        let mut m: u128 = start as u128;
        while m <= end as u128
            invariant
                self.wf(),
                start <= end,
                start <= m <= end as int + 1,
                out@.len() == entries_upto(self, start as int, m as int).len(),
                forall|i: int| 0 <= i < out@.len() ==> part_ok(self, entries_upto(self, start as int, m as int)[i], #[trigger] out@[i]),
            decreases end as int + 1 - m,
        {
            let n = m as u64;
            let ghost prev = out@;
            let ghost ns = entries_upto(self, start as int, m as int);
            match self.block_parts_at(n) {
                Some(e) => {
                    out.push(e);
                },
                None => {},
            }
            proof {
                let ns1 = entries_upto(self, start as int, n + 1);
                assert forall|i: int| 0 <= i < out@.len() implies part_ok(self, ns1[i], #[trigger] out@[i]) by {
                    if i < prev.len() {
                        assert(out@[i] == prev[i]);
                        assert(ns1[i] == ns[i]);
                    }
                }
            }
            m = m + 1;
        }
        out
    }

    /// Each block in `start..=end` that has a header, body indices and all
    /// its transactions, in ascending order.
    pub fn block_range(&self, start: u64, end: u64) -> (r: Vec<Block>)
        requires
            self.wf(),
        ensures
            ({
                let ns = full_range(self, start, end);
                &&& r@.len() == ns.len()
                &&& forall|i: int| 0 <= i < ns.len() ==> block_ok(self, ns[i], #[trigger] r@[i])
            }),
    {
        let mut out: Vec<Block> = Vec::new();
        if start > end {
            return out;
        }
        let mut m: u128 = start as u128;
        while m <= end as u128
            invariant
                self.wf(),
                start <= end,
                start <= m <= end as int + 1,
                out@.len() == full_upto(self, start as int, m as int).len(),
                forall|i: int| 0 <= i < out@.len() ==> block_ok(self, full_upto(self, start as int, m as int)[i], #[trigger] out@[i]),
            decreases end as int + 1 - m,
        {
            let n = m as u64;
            let ghost prev = out@;
            let ghost ns = full_upto(self, start as int, m as int);
            match self.block(n) {
                Some(b) => {
                    out.push(b);
                },
                None => {},
            }
            proof {
                let ns1 = full_upto(self, start as int, n + 1);
                assert forall|i: int| 0 <= i < out@.len() implies block_ok(self, ns1[i], #[trigger] out@[i]) by {
                    if i < prev.len() {
                        assert(out@[i] == prev[i]);
                        assert(ns1[i] == ns[i]);
                    }
                }
            }
            m = m + 1;
        }
        out
    }

    /// The senders of a block's transactions: stored ones, else the first
    /// recovered; `None` if one is in neither.
    pub fn block_senders_at(&self, body: BlockBodyIndices, recovered: &Vec<(u64, Address)>) -> (r: Option<Vec<Address>>)
        requires
            self.wf(),
        ensures
            r is Some <==> senders_ok(self, recovered@, body),
            r matches Some(v) ==> v@.len() == body.tx_count && forall|j: int| 0 <= j < body.tx_count ==>
                crate::blocks::sender_of(self, recovered@, (body.first_tx_num + j) as u64) == Some(#[trigger] v@[j]),
    {
        let mut out: Vec<Address> = Vec::new();
        let mut j: u64 = 0;
        while j < body.tx_count
            invariant
                self.wf(),
                j <= body.tx_count,
                out@.len() == j,
                forall|k: int| 0 <= k < j ==> #[trigger] sender_avail_at(self, recovered@, body, k),
                forall|k: int| 0 <= k < j ==> crate::blocks::sender_of(self, recovered@, (body.first_tx_num + k) as u64) == Some(#[trigger] out@[k]),
            decreases body.tx_count - j,
        {
            if body.first_tx_num > u64::MAX - j {
                proof {
                    assert(!sender_avail_at(self, recovered@, body, j as int));
                }
                return None;
            }
            let t = body.first_tx_num + j;
            let sender = match self.tx.transaction_senders.get(&t) {
                Some(a) => *a,
                None => match crate::blocks::find_recovered(recovered, t) {
                    Some(a) => a,
                    None => {
                        proof {
                            assert(!sender_avail_at(self, recovered@, body, j as int));
                        }
                        return None;
                    },
                },
            };
            out.push(sender);
            j = j + 1;
        }
        Some(out)
    }

    /// Each block in `start..=end` that has a header, body indices and all
    /// its transactions, with its senders. Fails with `SenderRecoveryError`
    /// exactly when one of those blocks has a sender neither stored nor
    /// recovered.
    pub fn block_with_senders_range(&self, start: u64, end: u64, recovered: &Vec<(u64, Address)>) -> (r: Result<Vec<BlockWithSenders>, ProviderError>)
        requires
            self.wf(),
        ensures
            ({
                let ns = full_range(self, start, end);
                &&& r is Ok <==> forall|i: int| 0 <= i < ns.len() ==> #[trigger] senders_ok(self, recovered@, self.tx.block_body_indices.view()[ns[i]])
                &&& r is Err ==> r == Err::<Vec<BlockWithSenders>, ProviderError>(ProviderError::SenderRecoveryError)
                &&& r matches Ok(v) ==> v@.len() == ns.len() && forall|i: int| 0 <= i < ns.len() ==> {
                    let body = self.tx.block_body_indices.view()[ns[i]];
                    &&& block_ok(self, ns[i], (#[trigger] v@[i]).block)
                    &&& v@[i].senders@.len() == body.tx_count
                    &&& forall|j: int| 0 <= j < body.tx_count ==> crate::blocks::sender_of(self, recovered@, (body.first_tx_num + j) as u64) == Some(#[trigger] v@[i].senders@[j])
                }
            }),
    {
        let mut out: Vec<BlockWithSenders> = Vec::new();
        if start > end {
            return Ok(out);
        }
        let mut m: u128 = start as u128;
        while m <= end as u128
            invariant
                self.wf(),
                start <= end,
                start <= m <= end as int + 1,
                out@.len() == full_upto(self, start as int, m as int).len(),
                forall|i: int| 0 <= i < out@.len() ==> #[trigger] senders_ok(self, recovered@, self.tx.block_body_indices.view()[full_upto(self, start as int, m as int)[i]]),
                forall|i: int| 0 <= i < out@.len() ==> with_senders_ok(self, recovered@, full_upto(self, start as int, m as int)[i], #[trigger] out@[i]),
            decreases end as int + 1 - m,
        {
            let n = m as u64;
            let ghost prev = out@;
            let ghost ns = full_upto(self, start as int, m as int);
            match self.block(n) {
                Some(b) => {
                    let body = match self.block_body_indices(n) {
                        Some(x) => x,
                        None => BlockBodyIndices { first_tx_num: 0, tx_count: 0 },
                    };
                    match self.block_senders_at(body, recovered) {
                        Some(senders) => {
                            out.push(BlockWithSenders { block: b, senders });
                        },
                        None => {
                            proof {
                                let ne = full_range(self, start, end);
                                let k = prev.len() as int;
                                assert(block_full(self, n));
                                assert(full_upto(self, start as int, n + 1) == full_upto(self, start as int, n as int).push(n));
                                assert(ne == full_upto(self, start as int, end + 1));
                                lemma_full_upto_prefix(self, start as int, n + 1, end + 1);
                                assert(full_upto(self, start as int, n + 1)[k] == n);
                                assert(ne[k] == n);
                                assert(0 <= k < ne.len());
                                assert(body == self.tx.block_body_indices.view()[n]);
                                assert(!senders_ok(self, recovered@, self.tx.block_body_indices.view()[ne[k]]));
                            }
                            return Err(ProviderError::SenderRecoveryError);
                        },
                    }
                },
                None => {},
            }
            proof {
                let ns1 = full_upto(self, start as int, n + 1);
                assert forall|i: int| 0 <= i < out@.len() implies #[trigger] senders_ok(self, recovered@, self.tx.block_body_indices.view()[ns1[i]])
                    && with_senders_ok(self, recovered@, ns1[i], out@[i]) by {
                    if i < prev.len() {
                        assert(out@[i] == prev[i]);
                        assert(ns1[i] == ns[i]);
                        assert(senders_ok(self, recovered@, self.tx.block_body_indices.view()[ns[i]]));
                        assert(with_senders_ok(self, recovered@, ns[i], prev[i]));
                    }
                }
            }
            m = m + 1;
        }
        proof {
            let ne = full_upto(self, start as int, end + 1);
            assert forall|i: int| 0 <= i < ne.len() implies #[trigger] senders_ok(self, recovered@, self.tx.block_body_indices.view()[ne[i]]) by {
                assert(m == end + 1);
                assert(senders_ok(self, recovered@, self.tx.block_body_indices.view()[full_upto(self, start as int, m as int)[i]]));
            }
        }
        Ok(out)
    }

    /// Block `number` with its senders, when it has a header, body indices
    /// and all its transactions; `SenderRecoveryError` when such a block has
    /// a sender neither stored nor recovered.
    pub fn block_with_senders(&self, number: u64, recovered: &Vec<(u64, Address)>) -> (r: Result<Option<BlockWithSenders>, ProviderError>)
        requires
            self.wf(),
        ensures
            !block_full(self, number) ==> r == Ok::<Option<BlockWithSenders>, ProviderError>(None),
            block_full(self, number) ==> match r {
                Ok(Some(b)) => senders_ok(self, recovered@, self.tx.block_body_indices.view()[number]) && with_senders_ok(self, recovered@, number, b),
                Ok(None) => false,
                Err(e) => e == ProviderError::SenderRecoveryError && !senders_ok(self, recovered@, self.tx.block_body_indices.view()[number]),
            },
    {
        let b = match self.block(number) {
            Some(b) => b,
            None => {
                return Ok(None);
            },
        };
        let body = match self.block_body_indices(number) {
            Some(x) => x,
            None => BlockBodyIndices { first_tx_num: 0, tx_count: 0 },
        };
        match self.block_senders_at(body, recovered) {
            Some(senders) => Ok(Some(BlockWithSenders { block: b, senders })),
            None => Err(ProviderError::SenderRecoveryError),
        }
    }

    /// The block with hash `hash`, if the tables know it.
    pub fn find_block_by_hash(&self, hash: &B256) -> (r: Option<Block>)
        requires
            self.wf(),
        ensures
            match self.tx.header_numbers.lookup(*hash) {
                Some(n) => (r is Some <==> block_full(self, n)) && (r matches Some(b) ==> block_ok(self, n, b)),
                None => r is None,
            },
    {
        match self.block_number(hash) {
            Some(n) => self.block(n),
            None => None,
        }
    }

    /// The transactions of each block in `start..=end` that has body
    /// indices, block by block: all of them when they are all stored, else
    /// none.
    pub fn transactions_by_block_range(&self, start: u64, end: u64) -> (r: Vec<Vec<TransactionSigned>>)
        requires
            self.wf(),
        ensures
            ({
                let bodies = self.tx.block_body_indices.rows_between(start as int, end as int);
                &&& r@.len() == bodies.len()
                &&& forall|i: int| 0 <= i < bodies.len() ==> if txs_available(self, bodies[i].1) {
                    txs_ok(self, bodies[i].1, (#[trigger] r@[i])@)
                } else {
                    r@[i]@.len() == 0
                }
            }),
    {
        let bodies = self.tx.block_body_indices.between(&start, &end);
        let ghost g = self.tx.block_body_indices.rows_between(start as int, end as int);
        proof {
            assert(same_rows(bodies@, self.tx.block_body_indices.rows_between(start.rank(), end.rank())));
            assert forall|i: int| 0 <= i < bodies@.len() implies bodies@[i] == g[i] by {
                assert(bodies@[i].0 == g[i].0 && bodies@[i].1.image() == g[i].1.image());
            }
            assert(bodies@ =~= g);
        }
        let mut out: Vec<Vec<TransactionSigned>> = Vec::new();
        let mut i: usize = 0;
        while i < bodies.len()
            invariant
                self.wf(),
                bodies@ == g,
                i <= bodies@.len(),
                out@.len() == i,
                forall|x: int| 0 <= x < i ==> if txs_available(self, g[x].1) {
                    txs_ok(self, g[x].1, (#[trigger] out@[x])@)
                } else {
                    out@[x]@.len() == 0
                },
            decreases bodies@.len() - i,
        {
            let txs = match self.block_txs_at(bodies[i].1) {
                Some(t) => t,
                None => Vec::new(),
            };
            let ghost prev = out@;
            out.push(txs);
            proof {
                assert forall|x: int| 0 <= x < i + 1 implies if txs_available(self, g[x].1) {
                    txs_ok(self, g[x].1, (#[trigger] out@[x])@)
                } else {
                    out@[x]@.len() == 0
                } by {
                    if x < i {
                        assert(out@[x] == prev[x]);
                    }
                }
            }
            i = i + 1;
        }
        out
    }

    /// The stored senders of transactions `start..end`, in order.
    pub fn senders_by_tx_range(&self, start: u64, end: u64) -> (r: Vec<Address>)
        requires
            self.wf(),
        ensures
            start < end ==> r@.len() == self.tx.transaction_senders.rows_between(start as int, end - 1).len(),
            start < end ==> forall|i: int| 0 <= i < r@.len() ==> #[trigger] r@[i] == self.tx.transaction_senders.rows_between(start as int, end - 1)[i].1,
            start >= end ==> r@.len() == 0,
    {
        if start >= end {
            return Vec::new();
        }
        let last = end - 1;
        let rows = self.tx.transaction_senders.between(&start, &last);
        proof {
            assert(same_rows(rows@, self.tx.transaction_senders.rows_between(start.rank(), last.rank())));
            assert(same_rows(rows@, self.tx.transaction_senders.rows_between(start as int, last as int)));
        }
        let mut out: Vec<Address> = Vec::new();
        let mut i: usize = 0;
        while i < rows.len()
            invariant
                i <= rows@.len(),
                same_rows(rows@, self.tx.transaction_senders.rows_between(start as int, last as int)),
                out@.len() == i,
                forall|j: int| 0 <= j < i ==> #[trigger] out@[j] == self.tx.transaction_senders.rows_between(start as int, last as int)[j].1,
            decreases rows@.len() - i,
        {
            proof {
                let g = self.tx.transaction_senders.rows_between(start as int, last as int);
                assert(rows@[i as int].0 == g[i as int].0 && rows@[i as int].1.image() == g[i as int].1.image());
            }
            out.push(rows[i].1);
            i = i + 1;
        }
        out
    }

    /// The stored sender of transaction `id`.
    pub fn transaction_sender(&self, id: u64) -> (r: Option<Address>)
        requires
            self.wf(),
        ensures
            r == self.tx.transaction_senders.lookup(id),
    {
        match self.tx.transaction_senders.get(&id) {
            Some(a) => Some(*a),
            None => None,
        }
    }

    /// How many rows a segment has, in the tables and in the static files
    /// together.
    pub fn count_entries(&self, segment: StaticFileSegment) -> (r: u128)
        requires
            self.wf(),
        ensures
            r == match segment {
                StaticFileSegment::Headers => self.tx.headers.rows().len() + self.static_file_provider.headers@.len(),
                StaticFileSegment::Transactions => self.tx.transactions.rows().len() + self.static_file_provider.transactions@.len(),
                StaticFileSegment::Receipts => self.tx.receipts.rows().len() + self.static_file_provider.receipts@.len(),
            },
    {
        match segment {
            StaticFileSegment::Headers => self.tx.headers.len() as u128 + self.static_file_provider.headers.len() as u128,
            StaticFileSegment::Transactions => self.tx.transactions.len() as u128 + self.static_file_provider.transactions.len() as u128,
            StaticFileSegment::Receipts => self.tx.receipts.len() as u128 + self.static_file_provider.receipts.len() as u128,
        }
    }

    /// What filling an EVM environment for block `number` reads: its header
    /// and total difficulty, either of which missing is `HeaderNotFound`.
    pub fn env_inputs_at(&self, number: u64) -> (r: Result<(Header, crate::primitives::U256), ProviderError>)
        requires
            self.wf(),
        ensures
            match (self.header_spec(number), self.header_td_spec(number)) {
                (Some(h), Some(td)) => r == Ok::<(Header, crate::primitives::U256), ProviderError>((h, td)),
                _ => r == Err::<(Header, crate::primitives::U256), ProviderError>(ProviderError::HeaderNotFound(number)),
            },
    {
        let header = match self.header_by_number(number) {
            Some(h) => h,
            None => {
                return Err(ProviderError::HeaderNotFound(number));
            },
        };
        match self.header_td_by_number(number) {
            Some(td) => Ok((header, td)),
            None => Err(ProviderError::HeaderNotFound(number)),
        }
    }

    /// The receipts of transactions `start..end`: from the static files for
    /// the numbers they hold, then the stored ones from the tables.
    pub fn receipts_by_tx_range(&self, start: u64, end: u64) -> (r: Vec<Receipt>)
        requires
            self.wf(),
        ensures
            ({
                let s_end = static_split(self.static_file_provider.receipts@.len() as int, start, end);
                &&& forall|i: int| 0 <= i < s_end - start ==> (#[trigger] r@[i]).image() == self.static_file_provider.receipts@[start + i].image()
                &&& r@.len() == (s_end - start) + if s_end < end { self.tx.receipts.rows_between(s_end, end - 1).len() } else { 0 }
                &&& s_end < end ==> forall|i: int| 0 <= i < self.tx.receipts.rows_between(s_end, end - 1).len() ==>
                    (#[trigger] r@[s_end - start + i]).image() == self.tx.receipts.rows_between(s_end, end - 1)[i].1.image()
            }),
    {
        let n = self.static_file_provider.receipts.len();
        let s_end: u64 = if start >= end || (n as u128) <= (start as u128) {
            start
        } else if (n as u128) < (end as u128) {
            n as u64
        } else {
            end
        };
        let mut out: Vec<Receipt> = Vec::new();
        let mut t: u64 = start;
        while t < s_end
            invariant
                self.wf(),
                start <= t <= s_end,
                n == self.static_file_provider.receipts@.len(),
                s_end > start ==> s_end <= n,
                out@.len() == t - start,
                forall|i: int| 0 <= i < t - start ==> (#[trigger] out@[i]).image() == self.static_file_provider.receipts@[start + i].image(),
            decreases s_end - t,
        {
            let k: usize = t as usize;
            proof {
                assert(t < n);
                assert(k == t);
            }
            out.push(self.static_file_provider.receipts[k].duplicate());
            t = t + 1;
        }
        if s_end < end {
            let last = end - 1;
            let rows = self.tx.receipts.between(&s_end, &last);
            let ghost g = self.tx.receipts.rows_between(s_end as int, last as int);
            proof {
                assert(same_rows(rows@, self.tx.receipts.rows_between(s_end.rank(), last.rank())));
            }
            let ghost base = out@.len();
            let mut i: usize = 0;
            while i < rows.len()
                invariant
                    self.wf(),
                    same_rows(rows@, g),
                    i <= rows@.len(),
                    out@.len() == base + i,
                    base == s_end - start,
                    forall|x: int| 0 <= x < s_end - start ==> (#[trigger] out@[x]).image() == self.static_file_provider.receipts@[start + x].image(),
                    forall|x: int| 0 <= x < i ==> (#[trigger] out@[base + x]).image() == g[x].1.image(),
                decreases rows@.len() - i,
            {
                let ghost prev = out@;
                let d = rows[i].1.duplicate();
                out.push(d);
                proof {
                    assert(rows@[i as int].0 == g[i as int].0 && rows@[i as int].1.image() == g[i as int].1.image());
                    assert forall|x: int| 0 <= x < s_end - start implies (#[trigger] out@[x]).image() == self.static_file_provider.receipts@[start + x].image() by {
                        assert(out@[x] == prev[x]);
                    }
                    assert forall|x: int| 0 <= x < i + 1 implies (#[trigger] out@[base + x]).image() == g[x].1.image() by {
                        if x < i {
                            assert(out@[base + x] == prev[base + x]);
                        }
                    }
                }
                i = i + 1;
            }
        }
        out
    }

    /// The sealed headers of blocks `start..end`, in order, up to the first
    /// one that `predicate` rejects or that is missing.
    pub fn sealed_headers_while<F: Fn(&SealedHeader) -> bool>(&self, start: u64, end: u64, predicate: F) -> (r: Result<Vec<SealedHeader>, ProviderError>)
        requires
            self.wf(),
            forall|h: &SealedHeader| #[trigger] predicate.requires((h,)),
        ensures
            r matches Ok(v) ==> forall|i: int| 0 <= i < v@.len() ==> predicate.ensures((&v@[i],), true)
                && (#[trigger] v@[i]).header.number <= end
                && self.header_spec((start + i) as u64) == Some(v@[i].header)
                && self.block_hash_spec((start + i) as u64) == Some(v@[i].hash),
            r matches Ok(v) ==> start >= end || v@.len() == end - start || ({
                let n = (start + v@.len()) as u64;
                match (self.header_spec(n), self.block_hash_spec(n)) {
                    (Some(h), Some(x)) => h.number > end || predicate.ensures((&SealedHeader { header: h, hash: x },), false),
                    (None, _) => true,
                    (Some(_), None) => false,
                }
            }),
            r matches Err(e) ==> exists|k: u64| {
                &&& start <= k < end
                &&& e == ProviderError::HeaderNotFound(k)
                &&& self.header_spec(k) is Some
                &&& self.block_hash_spec(k) is None
                &&& forall|j: u64| start <= j < k ==> #[trigger] header_accepted(self, predicate, j, end)
            },
    {
        let mut out: Vec<SealedHeader> = Vec::new();
        if start >= end {
            return Ok(out);
        }
        let mut n: u64 = start;
        while n < end
            invariant
                self.wf(),
                forall|h: &SealedHeader| #[trigger] predicate.requires((h,)),
                start <= n <= end,
                out@.len() == n - start,
                forall|i: int| 0 <= i < out@.len() ==> predicate.ensures((&out@[i],), true)
                    && (#[trigger] out@[i]).header.number <= end
                    && self.header_spec((start + i) as u64) == Some(out@[i].header)
                    && self.block_hash_spec((start + i) as u64) == Some(out@[i].hash),
            decreases end - n,
        {
            let sealed = match self.sealed_header(n) {
                Ok(Some(h)) => h,
                Ok(None) => {
                    return Ok(out);
                },
                Err(e) => {
                    proof {
                        assert forall|j: u64| start <= j < n implies #[trigger] header_accepted(self, predicate, j, end) by {
                            let i = j - start;
                            assert((start + i) as u64 == j);
                            assert(predicate.ensures((&out@[i],), true) && out@[i].header.number <= end);
                            assert(out@[i] == (SealedHeader { header: out@[i].header, hash: out@[i].hash }));
                        }
                    }
                    return Err(e);
                },
            };
            if sealed.header.number > end || !predicate(&sealed) {
                return Ok(out);
            }
            out.push(sealed);
            n = n + 1;
        }
        Ok(out)
    }

    /// The hash and number of every transaction numbered in `start..end`,
    /// from the static files for the numbers they hold and from the tables
    /// after them. The result does not depend on how the work is split.
    pub fn transaction_hashes_by_range(&self, start: u64, end: u64) -> (r: Vec<(B256, u64)>)
        requires
            self.wf(),
        ensures
            ({
                let s_end = static_split(self.static_file_provider.transactions@.len() as int, start, end);
                r@ == static_tx_hashes(self.static_file_provider.transactions@, start as int, s_end)
                    + if s_end < end { tx_hash_rows(self.tx.transactions.rows_between(s_end, end - 1)) } else { Seq::empty() }
            }),
    {
        let n = self.static_file_provider.transactions.len();
        let s_end: u64 = if start >= end || (n as u128) <= (start as u128) {
            start
        } else if (n as u128) < (end as u128) {
            n as u64
        } else {
            end
        };
        let ghost txs = self.static_file_provider.transactions@;
        let mut out: Vec<(B256, u64)> = Vec::new();
        let mut t: u64 = start;
        while t < s_end
            invariant
                self.wf(),
                start <= t <= s_end,
                n == txs.len(),
                s_end > start ==> s_end <= n,
                txs == self.static_file_provider.transactions@,
                out@ == static_tx_hashes(txs, start as int, t as int),
            decreases s_end - t,
        {
            let k: usize = t as usize;
            proof {
                assert(t < n);
                assert(k == t);
            }
            let h = keccak256(&self.static_file_provider.transactions[k].encoded);
            let ghost prev = out@;
            out.push((h, t));
            proof {
                assert(h == keccak256_of(txs[t as int].encoded@));
                let nx = static_tx_hashes(txs, start as int, t + 1);
                assert forall|i: int| 0 <= i < nx.len() implies out@[i] == nx[i] by {
                    if i < prev.len() {
                        assert(prev[i] == static_tx_hashes(txs, start as int, t as int)[i]);
                    } else {
                        assert(i == t - start);
                    }
                }
                assert(out@ =~= nx);
            }
            t = t + 1;
        }
        if s_end < end {
            let last = end - 1;
            let rows = self.tx.transactions.between(&s_end, &last);
            let ghost g = self.tx.transactions.rows_between(s_end as int, last as int);
            let ghost prefix = out@;
            let mut i: usize = 0;
            while i < rows.len()
                invariant
                    self.wf(),
                    i <= rows@.len(),
                    same_rows(rows@, g),
                    out@ == prefix + tx_hash_rows(g.subrange(0, i as int)),
                decreases rows@.len() - i,
            {
                let h = keccak256(&rows[i].1.encoded);
                out.push((h, rows[i].0));
                proof {
                    assert(rows@[i as int].0 == g[i as int].0 && rows@[i as int].1.image() == g[i as int].1.image());
                    assert(out@ =~= prefix + tx_hash_rows(g.subrange(0, i + 1)));
                }
                i = i + 1;
            }
            proof {
                assert(g.subrange(0, i as int) =~= g);
            }
        } else {
            proof {
                assert(out@ + Seq::<(B256, u64)>::empty() =~= out@);
            }
        }
        out
    }
}

} // verus!
