//! Reading and removing whole blocks: their transactions with senders, and
//! the block-and-state range that an unwind hands back.
use crate::errors::ProviderError;
use crate::models::{BlockBodyIndices, Header, TransactionSigned, TransactionSignedEcRecovered, TransactionSignedNoHash};
use crate::primitives::{keccak256, keccak256_of, Address, B256};
use crate::changes::{apply_rows, first_value, firsts_of, lemma_first_value_push};
use crate::writer::map_lookup;
use crate::errors::RootMismatch;
use crate::hashing::{hashed_account_rows, build_prefix_sets, prefix_sets_of, hashed_account_changes, hashed_storage_changes, TriePrefixSets};
use crate::history::{account_blocks, cut_history, history_wf, key_history, slot_blocks};
use crate::checkpoints::StageId;
use crate::stages::moved_checkpoint;
use crate::models::{Account, HashedSlotKey, SlotKey};
use crate::primitives::U256;
use crate::provider::{Tables, receipt_is, receipts_stored, account_after_revert, account_change_bounds, account_pairs, slot_after_revert, slot_pairs, slot_row, storage_change_bounds, BundleStateWithReceipts, DatabaseProvider, SealedBlockWithSenders};
use crate::table::{same_rows, Table, TableKey, TableValue};
use vstd::prelude::*;

verus! {

/// The first sender that `recovered` gives for transaction `t`.
pub fn find_recovered(recovered: &Vec<(u64, Address)>, t: u64) -> (r: Option<Address>)
    ensures
        r == first_value(recovered@, t),
{
    let mut i: usize = 0;
    while i < recovered.len()
        invariant
            i <= recovered@.len(),
            first_value(recovered@.subrange(0, i as int), t) is None,
        decreases recovered@.len() - i,
    {
        proof {
            assert(recovered@.subrange(0, i + 1) =~= recovered@.subrange(0, i as int).push(recovered@[i as int]));
            lemma_first_value_push(recovered@.subrange(0, i as int), recovered@[i as int], t);
        }
        if recovered[i].0 == t {
            proof {
                lemma_first_value_prefix(recovered@, i + 1, t);
            }
            return Some(recovered[i].1);
        }
        i = i + 1;
    }
    proof {
        assert(recovered@.subrange(0, i as int) =~= recovered@);
    }
    None
}

/// A key found in a prefix keeps its first value in the whole sequence.
proof fn lemma_first_value_prefix<K, V>(s: Seq<(K, V)>, n: int, k: K)
    requires
        0 <= n <= s.len(),
        first_value(s.subrange(0, n), k) is Some,
    ensures
        first_value(s, k) == first_value(s.subrange(0, n), k),
    decreases s.len() - n,
{
    if n < s.len() {
        assert(s.subrange(0, n + 1) =~= s.subrange(0, n).push(s[n]));
        lemma_first_value_push(s.subrange(0, n), s[n], k);
        lemma_first_value_prefix(s, n + 1, k);
    } else {
        assert(s.subrange(0, n) =~= s);
    }
}

/// Some block of `v` has hash `h`.
pub open spec fn block_hash_taken(v: Seq<SealedBlockWithSenders>, h: B256) -> bool {
    exists|i: int| 0 <= i < v.len() && #[trigger] v[i].hash == h
}

fn remove_block_hashes(table: &mut Table<B256, u64>, v: &Vec<SealedBlockWithSenders>)
    requires
        old(table).wf(),
    ensures
        final(table).wf(),
        forall|h: B256| #[trigger] final(table).lookup(h) == if block_hash_taken(v@, h) { None } else { old(table).lookup(h) },
{
    let mut i: usize = 0;
    while i < v.len()
        invariant
            table.wf(),
            i <= v@.len(),
            forall|h: B256| #[trigger] table.lookup(h) == if block_hash_taken(v@.subrange(0, i as int), h) { None } else { old(table).lookup(h) },
        decreases v@.len() - i,
    {
        let h0 = v[i].hash;
        let ghost before = *table;
        table.remove(&h0);
        proof {
            assert forall|h: B256| #[trigger] table.lookup(h) == if block_hash_taken(v@.subrange(0, i + 1), h) { None } else { old(table).lookup(h) } by {
                assert(before.lookup(h) == if block_hash_taken(v@.subrange(0, i as int), h) { None } else { old(table).lookup(h) });
                if h == h0 {
                    assert(v@.subrange(0, i + 1)[i as int].hash == h);
                } else {
                    assert(table.view().contains_key(h) == before.view().contains_key(h));
                    if block_hash_taken(v@.subrange(0, i + 1), h) {
                        let x = choose|x: int| 0 <= x < i + 1 && #[trigger] v@.subrange(0, i + 1)[x].hash == h;
                        assert(v@.subrange(0, i as int)[x].hash == h);
                    }
                    if block_hash_taken(v@.subrange(0, i as int), h) {
                        let x = choose|x: int| 0 <= x < i && #[trigger] v@.subrange(0, i as int)[x].hash == h;
                        assert(v@.subrange(0, i + 1)[x].hash == h);
                    }
                }
            }
        }
        i = i + 1;
    }
    proof {
        assert(v@.subrange(0, i as int) =~= v@);
    }
}

/// A header row lines up with a body row and has a canonical hash.
pub open spec fn header_aligned(p: &DatabaseProvider, h: (u64, Header), b: (u64, BlockBodyIndices)) -> bool {
    h.0 == b.0 && p.tx.canonical_headers.view().contains_key(h.0)
}

/// The header rows line up with the body rows, one to one, and have
/// canonical hashes.
pub open spec fn headers_aligned(p: &DatabaseProvider, hs: Seq<(u64, Header)>, bodies: Seq<(u64, BlockBodyIndices)>) -> bool {
    hs.len() == bodies.len() && forall|i: int| 0 <= i < hs.len() ==> #[trigger] header_aligned(p, hs[i], bodies[i])
}

/// `b` is the block of header row `h` with body `body`.
pub open spec fn block_built(p: &DatabaseProvider, recovered: Seq<(u64, Address)>, h: (u64, Header), body: BlockBodyIndices, b: SealedBlockWithSenders) -> bool {
    &&& b.header == h.1
    &&& p.tx.canonical_headers.lookup(h.0) == Some(b.hash)
    &&& b.body@.len() == body.tx_count
    &&& b.senders@.len() == body.tx_count
    &&& forall|j: int| 0 <= j < body.tx_count ==> {
        let t = (body.first_tx_num + j) as u64;
        &&& stored_as(p, t, (#[trigger] b.body@[j]).encoded@)
        &&& b.body@[j].hash == keccak256_of(b.body@[j].encoded@)
        &&& sender_of(p, recovered, t) == Some(b.senders@[j])
    }
    &&& b.ommers@ == match p.tx.block_ommers.lookup(h.0) {
        Some(o) => o@,
        None => Seq::empty(),
    }
    &&& if p.chain_spec.shanghai_active_spec(h.1.timestamp) {
        b.withdrawals matches Some(w) && w@ == match p.tx.block_withdrawals.lookup(h.0) {
            Some(x) => x@,
            None => Seq::empty(),
        }
    } else {
        b.withdrawals is None
    }
}

/// Splits recovered transactions into the transactions and their senders.
pub fn split_recovered(txs: Vec<TransactionSignedEcRecovered>) -> (r: (Vec<TransactionSigned>, Vec<Address>))
    ensures
        r.0@.len() == txs@.len(),
        r.1@.len() == txs@.len(),
        forall|i: int| 0 <= i < txs@.len() ==> #[trigger] r.0@[i] == txs@[i].transaction && r.1@[i] == txs@[i].signer,
{
    let ghost all = txs@;
    let n = txs.len();
    let mut rest = txs;
    let mut body: Vec<TransactionSigned> = Vec::new();
    let mut senders: Vec<Address> = Vec::new();
    let mut i: usize = 0;
    while i < n
        invariant
            n == all.len(),
            i <= n,
            rest@ == all.subrange(i as int, n as int),
            body@.len() == i,
            senders@.len() == i,
            forall|j: int| 0 <= j < i ==> #[trigger] body@[j] == all[j].transaction && senders@[j] == all[j].signer,
        decreases n - i,
    {
        let tx = rest.remove(0);
        proof {
            assert(tx == all[i as int]);
            assert(rest@ =~= all.subrange(i + 1, n as int));
        }
        senders.push(tx.signer);
        body.push(tx.transaction);
        i = i + 1;
    }
    (body, senders)
}

/// The round trip of appending blocks and unwinding them, on a table keyed
/// by block number (headers, hashes, body indices): if the table held no
/// block of `start..=end` before, and appending changed only those blocks,
/// removing the range gives back the table as it was.
pub proof fn lemma_take_range_restores<V>(before: Map<u64, V>, appended: Map<u64, V>, start: u64, end: u64)
    requires
        forall|n: u64| start <= n <= end ==> !#[trigger] before.contains_key(n),
        forall|n: u64| !(start <= n <= end) ==> #[trigger] map_lookup(appended, n) == map_lookup(before, n),
    ensures
        forall|n: u64| (if start <= n <= end { None } else { map_lookup(appended, n) }) == #[trigger] map_lookup(before, n),
{
}

/// Reading blocks `start..=end` succeeds: there are no header rows in
/// range, or they line up with the body rows and every transaction and
/// sender is known.
pub open spec fn block_range_ok(p: &DatabaseProvider, start: u64, end: u64, recovered: Seq<(u64, Address)>) -> bool {
    let hs = p.tx.headers.rows_between(start as int, end as int);
    let bodies = bodies_between(p, start, end);
    hs.len() == 0 || (headers_aligned(p, hs, bodies) && body_txs_stored(p, bodies) && body_senders_known(p, recovered, bodies))
}

/// The keys of slot rows.
pub open spec fn slot_keys(sl: Seq<(HashedSlotKey, U256)>) -> Seq<HashedSlotKey> {
    Seq::new(sl.len(), |x: int| sl[x].0)
}

/// Two maps with the same lookups are equal.
pub proof fn lemma_maps_equal_by_lookup<K, V>(m1: Map<K, V>, m2: Map<K, V>)
    requires
        forall|k: K| #[trigger] map_lookup(m1, k) == map_lookup(m2, k),
    ensures
        m1 == m2,
{
    assert forall|k: K| m1.contains_key(k) == m2.contains_key(k) by {
        assert(map_lookup(m1, k) == map_lookup(m2, k));
    }
    assert forall|k: K| m1.contains_key(k) implies m1[k] == m2[k] by {
        assert(map_lookup(m1, k) == map_lookup(m2, k));
    }
    assert(m1 =~= m2);
}

/// The round trip of appending blocks `start..=end` with their state and
/// then unwinding the same range, over the tables `before`, `appended` and
/// `unwound`. The first group of premises is what `append_blocks_with_state`
/// states when the range was empty before and the change rows record the
/// values from before it (as `changes_from_plain` builds them); the second is
/// what `get_or_take_block_and_execution_range` states with `take`. Then
/// plain accounts, hashed accounts, headers, canonical hashes and body
/// indices are as they were.
pub proof fn lemma_append_then_unwind_restores(
    before: Tables,
    appended: Tables,
    unwound: Tables,
    start: u64,
    end: u64,
    written: Seq<(Address, Option<Account>)>,
    changes: Seq<(Address, Option<Account>)>,
    hashed_changes: Seq<(B256, Option<Account>)>,
)
    requires
        appended.plain_account_state.view() == apply_rows(before.plain_account_state.view(), written),
        appended.hashed_accounts.view() == apply_rows(before.hashed_accounts.view(), hashed_account_rows(written)),
        forall|a: Address| #[trigger] first_value(changes, a) matches Some(v) ==> v == map_lookup(before.plain_account_state.view(), a),
        forall|a: Address| (exists|i: int| 0 <= i < written.len() && written[i].0 == a) ==> #[trigger] first_value(changes, a) is Some,
        forall|h: B256| #[trigger] first_value(hashed_changes, h) matches Some(v) ==> v == map_lookup(before.hashed_accounts.view(), h),
        forall|h: B256| (exists|i: int| 0 <= i < hashed_account_rows(written).len() && hashed_account_rows(written)[i].0 == h) ==> #[trigger] first_value(hashed_changes, h) is Some,
        forall|n: u64| start <= n <= end ==> !before.headers.view().contains_key(n) && !before.canonical_headers.view().contains_key(n)
            && !before.block_body_indices.view().contains_key(n),
        forall|n: u64| !(start <= n <= end) ==> #[trigger] appended.headers.lookup(n) == before.headers.lookup(n)
            && appended.canonical_headers.lookup(n) == before.canonical_headers.lookup(n)
            && appended.block_body_indices.lookup(n) == before.block_body_indices.lookup(n),
        forall|a: Address| #[trigger] unwound.plain_account_state.lookup(a) == account_after_revert(changes, appended.plain_account_state.lookup(a), a),
        forall|h: B256| #[trigger] unwound.hashed_accounts.lookup(h) == match first_value(hashed_changes, h) {
            Some(v) => v,
            None => appended.hashed_accounts.lookup(h),
        },
        forall|n: u64| #[trigger] unwound.headers.lookup(n) == if start <= n <= end { None } else { appended.headers.lookup(n) },
        forall|n: u64| #[trigger] unwound.canonical_headers.lookup(n) == if start <= n <= end { None } else { appended.canonical_headers.lookup(n) },
        forall|n: u64| #[trigger] unwound.block_body_indices.lookup(n) == if start <= n <= end { None } else { appended.block_body_indices.lookup(n) },
    ensures
        unwound.plain_account_state.view() == before.plain_account_state.view(),
        unwound.hashed_accounts.view() == before.hashed_accounts.view(),
        unwound.headers.view() == before.headers.view(),
        unwound.canonical_headers.view() == before.canonical_headers.view(),
        unwound.block_body_indices.view() == before.block_body_indices.view(),
{
    crate::writer::lemma_unwind_restores_accounts(before.plain_account_state.view(), written, changes);
    assert forall|a: Address| #[trigger] map_lookup(unwound.plain_account_state.view(), a) == map_lookup(before.plain_account_state.view(), a) by {
        assert(unwound.plain_account_state.lookup(a) == account_after_revert(changes, appended.plain_account_state.lookup(a), a));
        assert(account_after_revert(changes, map_lookup(apply_rows(before.plain_account_state.view(), written), a), a) == map_lookup(before.plain_account_state.view(), a));
    }
    lemma_maps_equal_by_lookup(unwound.plain_account_state.view(), before.plain_account_state.view());
    crate::writer::lemma_unwind_restores_rows(before.hashed_accounts.view(), hashed_account_rows(written), hashed_changes);
    assert forall|h: B256| #[trigger] map_lookup(unwound.hashed_accounts.view(), h) == map_lookup(before.hashed_accounts.view(), h) by {
        assert(unwound.hashed_accounts.lookup(h) == match first_value(hashed_changes, h) {
            Some(v) => v,
            None => appended.hashed_accounts.lookup(h),
        });
        assert(match first_value(hashed_changes, h) {
            Some(v) => v,
            None => map_lookup(apply_rows(before.hashed_accounts.view(), hashed_account_rows(written)), h),
        } == map_lookup(before.hashed_accounts.view(), h));
    }
    lemma_maps_equal_by_lookup(unwound.hashed_accounts.view(), before.hashed_accounts.view());
    assert forall|n: u64| #[trigger] map_lookup(unwound.headers.view(), n) == map_lookup(before.headers.view(), n) by {
        assert(unwound.headers.lookup(n) == if start <= n <= end { None } else { appended.headers.lookup(n) });
        if !(start <= n <= end) {
            assert(appended.headers.lookup(n) == before.headers.lookup(n));
        }
    }
    lemma_maps_equal_by_lookup(unwound.headers.view(), before.headers.view());
    assert forall|n: u64| #[trigger] map_lookup(unwound.canonical_headers.view(), n) == map_lookup(before.canonical_headers.view(), n) by {
        assert(unwound.canonical_headers.lookup(n) == if start <= n <= end { None } else { appended.canonical_headers.lookup(n) });
        if !(start <= n <= end) {
            assert(appended.headers.lookup(n) == before.headers.lookup(n));
        }
    }
    lemma_maps_equal_by_lookup(unwound.canonical_headers.view(), before.canonical_headers.view());
    assert forall|n: u64| #[trigger] map_lookup(unwound.block_body_indices.view(), n) == map_lookup(before.block_body_indices.view(), n) by {
        assert(unwound.block_body_indices.lookup(n) == if start <= n <= end { None } else { appended.block_body_indices.lookup(n) });
        if !(start <= n <= end) {
            assert(appended.headers.lookup(n) == before.headers.lookup(n));
        }
    }
    lemma_maps_equal_by_lookup(unwound.block_body_indices.view(), before.block_body_indices.view());
}

/// Blocks together with the state changes and receipts they produced.
pub struct Chain {
    pub blocks: Vec<SealedBlockWithSenders>,
    pub execution_state: BundleStateWithReceipts,
    /// With `take`, the hashed keys that the unwind touched.
    pub trie_prefix_sets: Option<TriePrefixSets>,
}

/// What reading (or, with `take`, removing) a range of transactions leaves
/// alone.
pub open spec fn tx_range_frame(n: &DatabaseProvider, o: &DatabaseProvider, take: bool) -> bool {
    &&& n.wf()
    &&& n.static_file_provider == o.static_file_provider
    &&& n.chain_spec == o.chain_spec
    &&& n.tx.same_state(&o.tx)
    &&& n.tx.same_indices(&o.tx)
    &&& n.tx.block_body_indices == o.tx.block_body_indices
    &&& n.tx.headers == o.tx.headers
    &&& n.tx.canonical_headers == o.tx.canonical_headers
    &&& n.tx.header_numbers == o.tx.header_numbers
    &&& n.tx.header_terminal_difficulties == o.tx.header_terminal_difficulties
    &&& n.tx.block_ommers == o.tx.block_ommers
    &&& n.tx.block_withdrawals == o.tx.block_withdrawals
    &&& n.tx.receipts == o.tx.receipts
    &&& !take ==> n.tx == o.tx
}

/// Transaction `t` is stored in the tables with this encoding.
pub open spec fn stored_as(p: &DatabaseProvider, t: u64, encoded: Seq<u8>) -> bool {
    p.tx.transactions.lookup(t) matches Some(x) && x.encoded@ == encoded
}

/// Transaction `t`'s sender: the stored one, else the first one recovered
/// for it.
pub open spec fn sender_of(p: &DatabaseProvider, recovered: Seq<(u64, Address)>, t: u64) -> Option<Address> {
    match p.tx.transaction_senders.lookup(t) {
        Some(a) => Some(a),
        None => first_value(recovered, t),
    }
}

/// Transaction `j` of a block is stored (and its number fits in `u64`).
pub open spec fn tx_at(p: &DatabaseProvider, body: BlockBodyIndices, j: int) -> bool {
    body.first_tx_num + j <= u64::MAX && p.tx.transactions.view().contains_key((body.first_tx_num + j) as u64)
}

/// The sender of transaction `j` of a block is known.
pub open spec fn sender_known(p: &DatabaseProvider, recovered: Seq<(u64, Address)>, body: BlockBodyIndices, j: int) -> bool {
    sender_of(p, recovered, (body.first_tx_num + j) as u64) is Some
}

/// Every transaction of the bodies is stored.
pub open spec fn body_txs_stored(p: &DatabaseProvider, bodies: Seq<(u64, BlockBodyIndices)>) -> bool {
    forall|i: int, j: int| 0 <= i < bodies.len() && 0 <= j < bodies[i].1.tx_count ==> #[trigger] tx_at(p, bodies[i].1, j)
}

/// Every transaction of the bodies has a known sender.
pub open spec fn body_senders_known(p: &DatabaseProvider, recovered: Seq<(u64, Address)>, bodies: Seq<(u64, BlockBodyIndices)>) -> bool {
    forall|i: int, j: int| 0 <= i < bodies.len() && 0 <= j < bodies[i].1.tx_count ==> #[trigger] sender_known(p, recovered, bodies[i].1, j)
}

/// `e` is transaction `t` as stored, with its hash and its sender.
pub open spec fn recovered_tx(p: &DatabaseProvider, recovered: Seq<(u64, Address)>, t: u64, e: TransactionSignedEcRecovered) -> bool {
    &&& stored_as(p, t, e.transaction.encoded@)
    &&& e.transaction.hash == keccak256_of(e.transaction.encoded@)
    &&& sender_of(p, recovered, t) == Some(e.signer)
}

/// `e` is a block's number with its transactions and senders.
pub open spec fn block_result(p: &DatabaseProvider, recovered: Seq<(u64, Address)>, body: (u64, BlockBodyIndices), e: (u64, Vec<TransactionSignedEcRecovered>)) -> bool {
    &&& e.0 == body.0
    &&& e.1@.len() == body.1.tx_count
    &&& forall|j: int| 0 <= j < body.1.tx_count ==> recovered_tx(p, recovered, (body.1.first_tx_num + j) as u64, #[trigger] e.1@[j])
}

/// The result for the bodies: one entry per body, in order.
pub open spec fn tx_range_result(p: &DatabaseProvider, recovered: Seq<(u64, Address)>, bodies: Seq<(u64, BlockBodyIndices)>, v: Seq<(u64, Vec<TransactionSignedEcRecovered>)>) -> bool {
    &&& v.len() == bodies.len()
    &&& forall|i: int| 0 <= i < v.len() ==> (#[trigger] v[i]).0 == bodies[i].0 && v[i].1@.len() == bodies[i].1.tx_count
        && forall|j: int| 0 <= j < bodies[i].1.tx_count ==> recovered_tx(p, recovered, (bodies[i].1.first_tx_num + j) as u64, #[trigger] v[i].1@[j])
}

/// Some of the transaction rows hashes to `h`.
pub open spec fn row_hash_taken(rows: Seq<(u64, TransactionSignedNoHash)>, h: B256) -> bool {
    exists|i: int| 0 <= i < rows.len() && #[trigger] keccak256_of(rows[i].1.encoded@) == h
}

/// Removes the hash lookup of every transaction row.
fn remove_row_hashes(table: &mut Table<B256, u64>, rows: &Vec<(u64, TransactionSignedNoHash)>)
    requires
        old(table).wf(),
    ensures
        final(table).wf(),
        forall|h: B256| #[trigger] final(table).lookup(h) == if row_hash_taken(rows@, h) { None } else { old(table).lookup(h) },
{
    let mut i: usize = 0;
    while i < rows.len()
        invariant
            table.wf(),
            i <= rows@.len(),
            forall|h: B256| #[trigger] table.lookup(h) == if row_hash_taken(rows@.subrange(0, i as int), h) { None } else { old(table).lookup(h) },
        decreases rows@.len() - i,
    {
        let h0 = keccak256(&rows[i].1.encoded);
        let ghost before = *table;
        table.remove(&h0);
        proof {
            let s0 = rows@.subrange(0, i as int);
            let s1 = rows@.subrange(0, i + 1);
            assert forall|h: B256| #[trigger] table.lookup(h) == if row_hash_taken(s1, h) { None } else { old(table).lookup(h) } by {
                assert(before.lookup(h) == if row_hash_taken(s0, h) { None } else { old(table).lookup(h) });
                if h == h0 {
                    assert(keccak256_of(s1[i as int].1.encoded@) == h);
                } else {
                    assert(table.view().contains_key(h) == before.view().contains_key(h));
                    if row_hash_taken(s1, h) {
                        let x = choose|x: int| 0 <= x < s1.len() && #[trigger] keccak256_of(s1[x].1.encoded@) == h;
                        assert(s0[x] == s1[x]);
                        assert(keccak256_of(s0[x].1.encoded@) == h);
                    }
                    if row_hash_taken(s0, h) {
                        let x = choose|x: int| 0 <= x < s0.len() && #[trigger] keccak256_of(s0[x].1.encoded@) == h;
                        assert(s0[x] == s1[x]);
                        assert(keccak256_of(s1[x].1.encoded@) == h);
                    }
                }
            }
        }
        i = i + 1;
    }
    proof {
        assert(rows@.subrange(0, i as int) =~= rows@);
    }
}

/// The bodies of blocks `start..=end`, in order.
pub open spec fn bodies_between(p: &DatabaseProvider, start: u64, end: u64) -> Seq<(u64, BlockBodyIndices)> {
    p.tx.block_body_indices.rows_between(start as int, end as int)
}

impl DatabaseProvider {
    /// The transaction numbers in `first..=last` that have a transaction but
    /// no stored sender: those whose sender must be recovered from the
    /// signature.
    pub fn senders_to_recover(&self, first: u64, last: u64) -> (r: Vec<u64>)
        requires
            self.wf(),
        ensures
            forall|i: int| 0 <= i < r@.len() ==> self.tx.transactions.view().contains_key(#[trigger] r@[i])
                && !self.tx.transaction_senders.view().contains_key(r@[i]) && first <= r@[i] <= last,
    {
        let txs = self.tx.transactions.between(&first, &last);
        let ghost g = self.tx.transactions.rows_between(first as int, last as int);
        let mut out: Vec<u64> = Vec::new();
        let mut i: usize = 0;
        while i < txs.len()
            invariant
                self.wf(),
                i <= txs@.len(),
                same_rows(txs@, g),
                g == self.tx.transactions.rows_between(first as int, last as int),
                forall|j: int| 0 <= j < out@.len() ==> self.tx.transactions.view().contains_key(#[trigger] out@[j])
                    && !self.tx.transaction_senders.view().contains_key(out@[j]) && first <= out@[j] <= last,
            decreases txs@.len() - i,
        {
            let t = txs[i].0;
            if !self.tx.transaction_senders.contains(&t) {
                proof {
                    assert(txs@[i as int].0 == g[i as int].0);
                    crate::table::lemma_filter_member(self.tx.transactions.rows(), |e: (u64, TransactionSignedNoHash)| crate::table::in_rank_range(e, first as int, last as int), i as int);
                    let e = g[i as int];
                    let k = choose|k: int| 0 <= k < self.tx.transactions.rows().len() && self.tx.transactions.rows()[k] == e;
                    self.tx.transactions.lemma_view_at(k);
                }
                out.push(t);
            }
            i = i + 1;
        }
        out
    }

    /// The first half of an unwind of blocks `start..=end`: puts the hashed
    /// state back to before the range and cuts the history indices, returning
    /// the touched hashed keys over which the state root is recomputed.
    pub fn unwind_trie_inputs(&mut self, start: u64, end: u64) -> (r: TriePrefixSets)
        requires
            old(self).wf(),
            history_wf(&old(self).tx.accounts_history),
            history_wf(&old(self).tx.storages_history),
        ensures
            final(self).wf(),
            history_wf(&final(self).tx.accounts_history),
            history_wf(&final(self).tx.storages_history),
            final(self).static_file_provider == old(self).static_file_provider,
            final(self).chain_spec == old(self).chain_spec,
            final(self).tx.same_chain(&old(self).tx),
            final(self).tx.same_state(&old(self).tx),
            final(self).tx.stage_checkpoints == old(self).tx.stage_checkpoints,
            final(self).tx.prune_checkpoints == old(self).tx.prune_checkpoints,
            final(self).tx.stage_checkpoint_progresses == old(self).tx.stage_checkpoint_progresses,
            ({
                let (lo, hi) = account_change_bounds(start, end);
                forall|a: Address| #[trigger] key_history(&final(self).tx.accounts_history, a)
                    == cut_history(key_history(&old(self).tx.accounts_history, a), account_blocks(old(self).tx.account_changesets.rows_between(lo, hi)), a)
            }),
            ({
                let (lo, hi) = storage_change_bounds(start, end);
                forall|k: SlotKey| #[trigger] key_history(&final(self).tx.storages_history, k)
                    == cut_history(key_history(&old(self).tx.storages_history, k), slot_blocks(old(self).tx.storage_changesets.rows_between(lo, hi)), k)
            }),
            exists|rows: Seq<(B256, Option<Account>)>, sl: Seq<(HashedSlotKey, U256)>|
                firsts_of(rows, hashed_account_changes(old(self).tx.account_changesets.rows_between(account_change_bounds(start, end).0, account_change_bounds(start, end).1)))
                && firsts_of(sl, hashed_storage_changes(old(self).tx.storage_changesets.rows_between(storage_change_bounds(start, end).0, storage_change_bounds(start, end).1)))
                && #[trigger] prefix_sets_of(r, rows, slot_keys(sl)),
            ({
                let (lo, hi) = account_change_bounds(start, end);
                let changes = hashed_account_changes(old(self).tx.account_changesets.rows_between(lo, hi));
                forall|h: B256| #[trigger] final(self).tx.hashed_accounts.lookup(h) == match first_value(changes, h) {
                    Some(v) => v,
                    None => old(self).tx.hashed_accounts.lookup(h),
                }
            }),
            ({
                let (lo, hi) = storage_change_bounds(start, end);
                let changes = hashed_storage_changes(old(self).tx.storage_changesets.rows_between(lo, hi));
                forall|k: HashedSlotKey| #[trigger] final(self).tx.hashed_storages.lookup(k) == match first_value(changes, k) {
                    Some(v) => slot_row(v),
                    None => old(self).tx.hashed_storages.lookup(k),
                }
            }),
    {
        let accounts = self.unwind_account_hashing(start, end);
        self.unwind_account_history_indices(start, end);
        let slots = self.unwind_storage_hashing(start, end);
        self.unwind_storage_history_indices(start, end);
        let mut keys: Vec<HashedSlotKey> = Vec::new();
        let mut i: usize = 0;
        while i < slots.len()
            invariant
                i <= slots@.len(),
                keys@ == Seq::new(i as nat, |x: int| slots@[x].0),
            decreases slots@.len() - i,
        {
            keys.push(slots[i].0);
            proof {
                assert(keys@ =~= Seq::new((i + 1) as nat, |x: int| slots@[x].0));
            }
            i = i + 1;
        }
        proof {
            assert(keys@ =~= slot_keys(slots@));
        }
        let r = build_prefix_sets(&accounts, keys);
        proof {
            assert(firsts_of(accounts@, hashed_account_changes(old(self).tx.account_changesets.rows_between(account_change_bounds(start, end).0, account_change_bounds(start, end).1)))
                && firsts_of(slots@, hashed_storage_changes(old(self).tx.storage_changesets.rows_between(storage_change_bounds(start, end).0, storage_change_bounds(start, end).1)))
                && prefix_sets_of(r, accounts@, slot_keys(slots@)));
        }
        r
    }

    /// Reads, or with `take` removes, blocks `start..=end` and their
    /// execution state. With `take`, `reverted_state_root` is the state root
    /// of the state the range unwinds to (the trie over the hashed tables as
    /// `unwind_trie_inputs` leaves them); it must be the parent block's, else
    /// this fails with `UnwindStateRootMismatch`. Then the hashed state and
    /// history indices are unwound, the blocks, their change sets, receipts
    /// and body indices are removed, plain state goes back to before the
    /// range, and every stage is moved back to the parent block.
    pub fn get_or_take_block_and_execution_range(&mut self, start: u64, end: u64, take: bool, recovered: &Vec<(u64, Address)>, reverted_state_root: B256) -> (r: Result<Chain, ProviderError>)
        requires
            old(self).wf(),
            take ==> history_wf(&old(self).tx.accounts_history) && history_wf(&old(self).tx.storages_history),
        ensures
            final(self).wf(),
            final(self).static_file_provider == old(self).static_file_provider,
            final(self).chain_spec == old(self).chain_spec,
            !take ==> final(self).tx == old(self).tx,
            ({
                let parent = if start == 0 { 0u64 } else { (start - 1) as u64 };
                take ==> {
                    &&& match old(self).header_spec(parent) {
                        None => r == Err::<Chain, ProviderError>(ProviderError::HeaderNotFound(parent)),
                        Some(h) => h.state_root != reverted_state_root ==> r == Err::<Chain, ProviderError>(match old(self).block_hash_spec(parent) {
                            Some(x) => ProviderError::UnwindStateRootMismatch(RootMismatch {
                                got: reverted_state_root,
                                expected: h.state_root,
                                block_number: parent,
                                block_hash: x,
                            }),
                            None => ProviderError::HeaderNotFound(parent),
                        }),
                    }
                }
            }),
            ({
                let parent = if start == 0 { 0u64 } else { (start - 1) as u64 };
                r is Ok <==> (block_range_ok(old(self), start, end, recovered@) && (take ==> (old(self).header_spec(parent) matches Some(h)
                    && h.state_root == reverted_state_root)))
            }),
            r matches Ok(c) ==> {
                let hs = old(self).tx.headers.rows_between(start as int, end as int);
                let bodies = bodies_between(old(self), start, end);
                let (alo, ahi) = account_change_bounds(start, end);
                let (slo, shi) = storage_change_bounds(start, end);
                &&& c.blocks@.len() == hs.len()
                &&& forall|i: int| 0 <= i < hs.len() ==> block_built(old(self), recovered@, hs[i], bodies[i].1, #[trigger] c.blocks@[i])
                &&& start <= end ==> c.execution_state.account_reverts@ == old(self).tx.account_changesets.rows_between(alo, ahi)
                &&& start <= end ==> c.execution_state.storage_reverts@ == old(self).tx.storage_changesets.rows_between(slo, shi)
                &&& start <= end ==> c.execution_state.receipts@.len() == bodies.len()
                &&& start <= end ==> forall|i: int| 0 <= i < bodies.len() && receipts_stored(&old(self).tx.receipts, #[trigger] bodies[i].1) ==> {
                    &&& c.execution_state.receipts@[i]@.len() == bodies[i].1.tx_count
                    &&& forall|j: int| 0 <= j < bodies[i].1.tx_count ==> receipt_is(&old(self).tx.receipts, (bodies[i].1.first_tx_num + j) as u64, #[trigger] c.execution_state.receipts@[i]@[j])
                }
            },
            take && start <= end && r is Ok ==> {
                let hs = old(self).tx.headers.rows_between(start as int, end as int);
                let bodies = bodies_between(old(self), start, end);
                let (alo, ahi) = account_change_bounds(start, end);
                let (slo, shi) = storage_change_bounds(start, end);
                let arows = old(self).tx.account_changesets.rows_between(alo, ahi);
                let srows = old(self).tx.storage_changesets.rows_between(slo, shi);
                &&& final(self).tx.block_body_indices.rows() == old(self).tx.block_body_indices.rows_outside(start as int, end as int)
                &&& forall|n: u64| #[trigger] final(self).tx.block_body_indices.lookup(n) == if start <= n <= end { None } else { old(self).tx.block_body_indices.lookup(n) }
                &&& forall|h: B256| #[trigger] final(self).tx.hashed_accounts.lookup(h) == match first_value(hashed_account_changes(arows), h) {
                    Some(v) => v,
                    None => old(self).tx.hashed_accounts.lookup(h),
                }
                &&& forall|k: HashedSlotKey| #[trigger] final(self).tx.hashed_storages.lookup(k) == match first_value(hashed_storage_changes(srows), k) {
                    Some(v) => slot_row(v),
                    None => old(self).tx.hashed_storages.lookup(k),
                }
                &&& history_wf(&final(self).tx.accounts_history)
                &&& history_wf(&final(self).tx.storages_history)
                &&& forall|a: Address| #[trigger] key_history(&final(self).tx.accounts_history, a)
                    == cut_history(key_history(&old(self).tx.accounts_history, a), account_blocks(arows), a)
                &&& forall|k: SlotKey| #[trigger] key_history(&final(self).tx.storages_history, k)
                    == cut_history(key_history(&old(self).tx.storages_history, k), slot_blocks(srows), k)
                &&& final(self).tx.account_changesets.rows() == old(self).tx.account_changesets.rows_outside(alo, ahi)
                &&& final(self).tx.storage_changesets.rows() == old(self).tx.storage_changesets.rows_outside(slo, shi)
                &&& forall|a: Address| #[trigger] final(self).tx.plain_account_state.lookup(a)
                    == account_after_revert(account_pairs(arows), old(self).tx.plain_account_state.lookup(a), a)
                &&& forall|k: SlotKey| #[trigger] final(self).tx.plain_storage_state.lookup(k)
                    == slot_after_revert(slot_pairs(srows), old(self).tx.plain_storage_state.lookup(k), k)
                &&& bodies.len() > 0 ==> final(self).tx.receipts.rows() == old(self).tx.receipts.rows_outside(
                    bodies[0].1.first_tx_num as int,
                    bodies.last().1.last_tx_spec(),
                )
                &&& hs.len() > 0 ==> {
                    let first = bodies[0].1.first_tx_num;
                    let last = bodies.last().1.last_tx_spec();
                    let fork = if hs[0].1.number == 0 { 0u64 } else { (hs[0].1.number - 1) as u64 };
                    &&& forall|n: u64| #[trigger] final(self).tx.headers.lookup(n) == if start <= n <= end { None } else { old(self).tx.headers.lookup(n) }
                    &&& forall|n: u64| #[trigger] final(self).tx.canonical_headers.lookup(n) == if start <= n <= end { None } else { old(self).tx.canonical_headers.lookup(n) }
                    &&& forall|n: u64| #[trigger] final(self).tx.block_ommers.lookup(n) == if start <= n <= end { None } else { old(self).tx.block_ommers.lookup(n) }
                    &&& forall|n: u64| #[trigger] final(self).tx.block_withdrawals.lookup(n) == if start <= n <= end { None } else { old(self).tx.block_withdrawals.lookup(n) }
                    &&& forall|n: u64| #[trigger] final(self).tx.header_terminal_difficulties.lookup(n) == if start <= n <= end { None } else { old(self).tx.header_terminal_difficulties.lookup(n) }
                    &&& (r matches Ok(c) && forall|h: B256| #[trigger] final(self).tx.header_numbers.lookup(h)
                        == if block_hash_taken(c.blocks@, h) { None } else { old(self).tx.header_numbers.lookup(h) })
                    &&& forall|t: u64| #[trigger] final(self).tx.transactions.lookup(t) == if first <= t <= last { None } else { old(self).tx.transactions.lookup(t) }
                    &&& forall|t: u64| #[trigger] final(self).tx.transaction_senders.lookup(t) == if first <= t <= last { None } else { old(self).tx.transaction_senders.lookup(t) }
                    &&& forall|t: u64| #[trigger] final(self).tx.transaction_blocks.lookup(t) == if first <= t <= last { None } else { old(self).tx.transaction_blocks.lookup(t) }
                    &&& forall|id: StageId| #[trigger] final(self).tx.stage_checkpoints.lookup(id)
                        == Some(moved_checkpoint(old(self).tx.stage_checkpoints.lookup(id), fork, true))
                }
            },
    {
        if take {
            let parent = start.saturating_sub(1);
            let parent_header = match self.header_by_number(parent) {
                Some(h) => h,
                None => {
                    return Err(ProviderError::HeaderNotFound(parent));
                },
            };
            if reverted_state_root != parent_header.state_root {
                let parent_hash = match self.block_hash(parent) {
                    Some(h) => h,
                    None => {
                        return Err(ProviderError::HeaderNotFound(parent));
                    },
                };
                return Err(ProviderError::UnwindStateRootMismatch(RootMismatch {
                    got: reverted_state_root,
                    expected: parent_header.state_root,
                    block_number: parent,
                    block_hash: parent_hash,
                }));
            }
        }
        let blocks = self.get_take_block_range(start, end, take, recovered)?;
        let unwind_to = if blocks.len() > 0 {
            Some(blocks[0].header.number.saturating_sub(1))
        } else {
            None
        };
        let trie_prefix_sets = if take {
            Some(self.unwind_trie_inputs(start, end))
        } else {
            None
        };
        let execution_state = self.unwind_or_peek_state(start, end, take);
        if take {
            self.tx.block_body_indices.take_between(&start, &end);
            match unwind_to {
                Some(fork) => {
                    self.update_pipeline_stages(fork, true);
                },
                None => {},
            }
        }
        Ok(Chain { blocks, execution_state, trie_prefix_sets })
    }

    /// Copies, or with `take` removes, whole blocks `start..=end`, one per
    /// stored header: its hash, transactions with senders (as
    /// `get_take_block_transaction_range` gives them), ommers (the stored
    /// ones, or none) and withdrawals (from Shanghai on, the stored ones or an
    /// empty list). The header rows must line up with the body rows and have
    /// canonical hashes. With `take`, success removes the blocks' rows from
    /// the header, hash, ommer, withdrawal and difficulty tables, their hash
    /// lookups, and their transactions as the transaction read states. On an
    /// error nothing changes.
    pub fn get_take_block_range(&mut self, start: u64, end: u64, take: bool, recovered: &Vec<(u64, Address)>) -> (r: Result<Vec<SealedBlockWithSenders>, ProviderError>)
        requires
            old(self).wf(),
        ensures
            final(self).wf(),
            final(self).static_file_provider == old(self).static_file_provider,
            final(self).chain_spec == old(self).chain_spec,
            final(self).tx.same_state(&old(self).tx),
            final(self).tx.same_indices(&old(self).tx),
            final(self).tx.block_body_indices == old(self).tx.block_body_indices,
            final(self).tx.receipts == old(self).tx.receipts,
            !take || r is Err ==> final(self).tx == old(self).tx,
            ({
                let hs = old(self).tx.headers.rows_between(start as int, end as int);
                let bodies = bodies_between(old(self), start, end);
                &&& r is Ok <==> (hs.len() == 0 || (headers_aligned(old(self), hs, bodies) && body_txs_stored(old(self), bodies)
                    && body_senders_known(old(self), recovered@, bodies)))
                &&& (hs.len() > 0 && headers_aligned(old(self), hs, bodies) && r is Err) ==> r == Err::<Vec<SealedBlockWithSenders>, ProviderError>(
                    if body_txs_stored(old(self), bodies) {
                        ProviderError::SenderRecoveryError
                    } else {
                        ProviderError::BlockBodyTransactionCount
                    },
                )
                &&& r matches Ok(v) ==> {
                    &&& v@.len() == hs.len()
                    &&& forall|i: int| 0 <= i < hs.len() ==> block_built(old(self), recovered@, hs[i], bodies[i].1, #[trigger] v@[i])
                }
                &&& (take && r is Ok && hs.len() > 0) ==> {
                    let first = bodies[0].1.first_tx_num;
                    let last = bodies.last().1.last_tx_spec();
                    &&& forall|n: u64| #[trigger] final(self).tx.headers.lookup(n) == if start <= n <= end { None } else { old(self).tx.headers.lookup(n) }
                    &&& forall|n: u64| #[trigger] final(self).tx.canonical_headers.lookup(n) == if start <= n <= end { None } else { old(self).tx.canonical_headers.lookup(n) }
                    &&& forall|n: u64| #[trigger] final(self).tx.block_ommers.lookup(n) == if start <= n <= end { None } else { old(self).tx.block_ommers.lookup(n) }
                    &&& forall|n: u64| #[trigger] final(self).tx.block_withdrawals.lookup(n) == if start <= n <= end { None } else { old(self).tx.block_withdrawals.lookup(n) }
                    &&& forall|n: u64| #[trigger] final(self).tx.header_terminal_difficulties.lookup(n) == if start <= n <= end { None } else { old(self).tx.header_terminal_difficulties.lookup(n) }
                    &&& (r matches Ok(v) && forall|h: B256| #[trigger] final(self).tx.header_numbers.lookup(h)
                        == if block_hash_taken(v@, h) { None } else { old(self).tx.header_numbers.lookup(h) })
                    &&& forall|t: u64| #[trigger] final(self).tx.transactions.lookup(t) == if first <= t <= last { None } else { old(self).tx.transactions.lookup(t) }
                    &&& forall|t: u64| #[trigger] final(self).tx.transaction_senders.lookup(t) == if first <= t <= last { None } else { old(self).tx.transaction_senders.lookup(t) }
                    &&& forall|t: u64| #[trigger] final(self).tx.transaction_blocks.lookup(t) == if first <= t <= last { None } else { old(self).tx.transaction_blocks.lookup(t) }
                }
            }),
    {
        let headers = self.tx.headers.between(&start, &end);
        let ghost hs = self.tx.headers.rows_between(start as int, end as int);
        proof {
            assert(same_rows(headers@, self.tx.headers.rows_between(start.rank(), end.rank())));
            assert forall|i: int| 0 <= i < headers@.len() implies headers@[i] == hs[i] by {
                assert(headers@[i].0 == hs[i].0 && headers@[i].1.image() == hs[i].1.image());
            }
            assert(headers@ =~= hs);
        }
        if headers.len() == 0 {
            return Ok(Vec::new());
        }
        let bodies = self.tx.block_body_indices.between(&start, &end);
        let ghost gb = bodies_between(self, start, end);
        proof {
            assert(same_rows(bodies@, self.tx.block_body_indices.rows_between(start.rank(), end.rank())));
            assert forall|i: int| 0 <= i < bodies@.len() implies bodies@[i] == gb[i] by {
                assert(bodies@[i].0 == gb[i].0 && bodies@[i].1.image() == gb[i].1.image());
            }
            assert(bodies@ =~= gb);
        }
        let n = headers.len();
        if bodies.len() != n {
            return Err(ProviderError::BlockBodyTransactionCount);
        }
        let mut i: usize = 0;
        while i < n
            invariant
                *self == *old(self),
                self.wf(),
                headers@ == hs,
                bodies@ == gb,
                hs == old(self).tx.headers.rows_between(start as int, end as int),
                gb == bodies_between(old(self), start, end),
                n == hs.len(),
                n == gb.len(),
                i <= n,
                forall|x: int| 0 <= x < i ==> #[trigger] header_aligned(old(self), hs[x], gb[x]),
            decreases n - i,
        {
            let number = headers[i].0;
            if bodies[i].0 != number {
                proof {
                    assert(!header_aligned(old(self), hs[i as int], gb[i as int]));
                }
                return Err(ProviderError::BlockBodyTransactionCount);
            }
            if !self.tx.canonical_headers.contains(&number) {
                proof {
                    assert(!header_aligned(old(self), hs[i as int], gb[i as int]));
                }
                return Err(ProviderError::HeaderNotFound(number));
            }
            i = i + 1;
        }
        let txr = self.get_take_block_transaction_range(start, end, take, recovered)?;
        let ghost mid = *self;
        let mut blocks: Vec<SealedBlockWithSenders> = Vec::new();
        let mut rest = txr;
        let mut i: usize = 0;
        while i < n
            invariant
                self.wf(),
                *self == mid,
                tx_range_frame(&mid, old(self), take),
                headers@ == hs,
                n == hs.len(),
                n == gb.len(),
                gb == bodies_between(old(self), start, end),
                i <= n,
                headers_aligned(old(self), hs, gb),
                rest@.len() == n - i,
                forall|x: int| 0 <= x < rest@.len() ==> block_result(old(self), recovered@, #[trigger] gb[x + i], rest@[x]),
                blocks@.len() == i,
                forall|x: int| 0 <= x < i ==> block_built(old(self), recovered@, hs[x], gb[x].1, #[trigger] blocks@[x]),
            decreases n - i,
        {
            let (number, header) = headers[i];
            proof {
                assert(header_aligned(old(self), hs[i as int], gb[i as int]));
                assert(block_result(old(self), recovered@, gb[0 + i], rest@[0]));
            }
            let hash = match self.tx.canonical_headers.get(&number) {
                Some(h) => *h,
                None => B256::zero(),
            };
            let ghost before = rest@;
            let (_, txs) = rest.remove(0);
            proof {
                let ni = i + 1;
                assert forall|x: int| 0 <= x < rest@.len() implies block_result(old(self), recovered@, #[trigger] gb[x + ni], rest@[x]) by {
                    assert(rest@[x] == before[x + 1]);
                    assert(block_result(old(self), recovered@, gb[(x + 1) + i], before[x + 1]));
                    assert((x + 1) + i == x + ni);
                }
            }
            let (body, senders) = split_recovered(txs);
            let ommers = match self.tx.block_ommers.get(&number) {
                Some(o) => crate::models::copy_vec(o),
                None => Vec::new(),
            };
            let withdrawals = if self.chain_spec.is_shanghai_active_at_timestamp(header.timestamp) {
                match self.tx.block_withdrawals.get(&number) {
                    Some(w) => Some(crate::models::copy_vec(w)),
                    None => Some(Vec::new()),
                }
            } else {
                None
            };
            let ghost prev = blocks@;
            blocks.push(SealedBlockWithSenders { header, hash, body, senders, ommers, withdrawals });
            proof {
                assert forall|x: int| 0 <= x < i + 1 implies block_built(old(self), recovered@, hs[x], gb[x].1, #[trigger] blocks@[x]) by {
                    if x < i {
                        assert(blocks@[x] == prev[x]);
                    }
                }
            }
            i = i + 1;
        }
        if take {
            self.tx.headers.take_between(&start, &end);
            self.tx.canonical_headers.take_between(&start, &end);
            self.tx.block_ommers.take_between(&start, &end);
            self.tx.block_withdrawals.take_between(&start, &end);
            self.tx.header_terminal_difficulties.take_between(&start, &end);
            remove_block_hashes(&mut self.tx.header_numbers, &blocks);
        }
        Ok(blocks)
    }

    /// The transactions of blocks `start..=end` with their senders, block by
    /// block. Each transaction `t` of a block's range must be stored (else
    /// `BlockBodyTransactionCount`), and its sender is the stored one, or else
    /// the first one `recovered` gives for `t` (else `SenderRecoveryError`).
    /// When `take` is set and this succeeds, the transactions, senders and
    /// block anchors numbered from the first block's first transaction to the
    /// last block's last one are removed, and so are the returned transactions'
    /// hash lookups. On an error nothing changes.
    pub fn get_take_block_transaction_range(&mut self, start: u64, end: u64, take: bool, recovered: &Vec<(u64, Address)>) -> (r: Result<Vec<(u64, Vec<TransactionSignedEcRecovered>)>, ProviderError>)
        requires
            old(self).wf(),
        ensures
            tx_range_frame(final(self), old(self), take),
            r is Err ==> *final(self) == *old(self),
            ({
                let bodies = bodies_between(old(self), start, end);
                &&& r is Ok <==> body_txs_stored(old(self), bodies) && body_senders_known(old(self), recovered@, bodies)
                &&& r is Err ==> r == Err::<Vec<(u64, Vec<TransactionSignedEcRecovered>)>, ProviderError>(
                    if body_txs_stored(old(self), bodies) {
                        ProviderError::SenderRecoveryError
                    } else {
                        ProviderError::BlockBodyTransactionCount
                    },
                )
                &&& r matches Ok(v) ==> tx_range_result(old(self), recovered@, bodies, v@)
                &&& (take && bodies.len() == 0) ==> final(self).tx == old(self).tx
                &&& (take && bodies.len() > 0 && r is Ok) ==> {
                    let first = bodies[0].1.first_tx_num;
                    let last = bodies.last().1.last_tx_spec();
                    &&& forall|t: u64| #[trigger] final(self).tx.transactions.lookup(t) == if first <= t <= last {
                        None
                    } else {
                        old(self).tx.transactions.lookup(t)
                    }
                    &&& forall|t: u64| #[trigger] final(self).tx.transaction_senders.lookup(t) == if first <= t <= last {
                        None
                    } else {
                        old(self).tx.transaction_senders.lookup(t)
                    }
                    &&& forall|t: u64| #[trigger] final(self).tx.transaction_blocks.lookup(t) == if first <= t <= last {
                        None
                    } else {
                        old(self).tx.transaction_blocks.lookup(t)
                    }
                    &&& forall|h: B256| #[trigger] final(self).tx.transaction_hash_numbers.lookup(h)
                        == if row_hash_taken(old(self).tx.transactions.rows_between(first as int, last), h) { None } else { old(self).tx.transaction_hash_numbers.lookup(h) }
                }
            }),
    {
        let bodies = self.tx.block_body_indices.between(&start, &end);
        let ghost gb = bodies_between(self, start, end);
        proof {
            assert(same_rows(bodies@, self.tx.block_body_indices.rows_between(start.rank(), end.rank())));
            assert(same_rows(bodies@, gb));
            assert forall|i: int| 0 <= i < bodies@.len() implies bodies@[i] == gb[i] by {
                assert(bodies@[i].0 == gb[i].0 && bodies@[i].1.image() == gb[i].1.image());
            }
            assert(bodies@ =~= gb);
        }
        let n = bodies.len();
        // Every transaction of the bodies must be stored.
        let mut b: usize = 0;
        while b < n
            invariant
                *self == *old(self),
                self.wf(),
                bodies@ == gb,
                gb == bodies_between(old(self), start, end),
                n == gb.len(),
                b <= n,
                forall|x: int, j: int| 0 <= x < b && 0 <= j < gb[x].1.tx_count ==> #[trigger] tx_at(old(self), gb[x].1, j),
            decreases n - b,
        {
            let body = bodies[b].1;
            let mut j: u64 = 0;
            while j < body.tx_count
                invariant
                    *self == *old(self),
                    self.wf(),
                    bodies@ == gb,
                    gb == bodies_between(old(self), start, end),
                    n == gb.len(),
                    b < n,
                    body == gb[b as int].1,
                    j <= body.tx_count,
                    forall|x: int, k: int| 0 <= x < b && 0 <= k < gb[x].1.tx_count ==> #[trigger] tx_at(old(self), gb[x].1, k),
                    forall|k: int| 0 <= k < j ==> #[trigger] tx_at(old(self), body, k),
                decreases body.tx_count - j,
            {
                if body.first_tx_num > u64::MAX - j || !self.tx.transactions.contains(&(body.first_tx_num + j)) {
                    proof {
                        assert(!tx_at(old(self), gb[b as int].1, j as int));
                    }
                    return Err(ProviderError::BlockBodyTransactionCount);
                }
                j = j + 1;
            }
            proof {
                assert forall|x: int, k: int| 0 <= x < b + 1 && 0 <= k < gb[x].1.tx_count implies #[trigger] tx_at(old(self), gb[x].1, k) by {
                    if x == b {
                        assert(tx_at(old(self), body, k));
                    }
                }
            }
            b = b + 1;
        }
        // Pair each transaction with its sender.
        let mut out: Vec<(u64, Vec<TransactionSignedEcRecovered>)> = Vec::new();
        let mut b: usize = 0;
        while b < n
            invariant
                *self == *old(self),
                self.wf(),
                bodies@ == gb,
                gb == bodies_between(old(self), start, end),
                n == gb.len(),
                b <= n,
                body_txs_stored(old(self), gb),
                out@.len() == b,
                forall|x: int| 0 <= x < b ==> block_result(old(self), recovered@, #[trigger] gb[x], out@[x]),
                forall|x: int, j: int| 0 <= x < b && 0 <= j < gb[x].1.tx_count ==> #[trigger] sender_known(old(self), recovered@, gb[x].1, j),
            decreases n - b,
        {
            let (number, body) = bodies[b];
            let mut block_txs: Vec<TransactionSignedEcRecovered> = Vec::new();
            let mut j: u64 = 0;
            while j < body.tx_count
                invariant
                    *self == *old(self),
                    self.wf(),
                    bodies@ == gb,
                    gb == bodies_between(old(self), start, end),
                    n == gb.len(),
                    b < n,
                    (number, body) == gb[b as int],
                    body_txs_stored(old(self), gb),
                    j <= body.tx_count,
                    block_txs@.len() == j,
                    forall|k: int| 0 <= k < j ==> recovered_tx(old(self), recovered@, (body.first_tx_num + k) as u64, #[trigger] block_txs@[k]),
                    forall|k: int| 0 <= k < j ==> #[trigger] sender_known(old(self), recovered@, body, k),
                    forall|x: int, k: int| 0 <= x < b && 0 <= k < gb[x].1.tx_count ==> #[trigger] sender_known(old(self), recovered@, gb[x].1, k),
                decreases body.tx_count - j,
            {
                proof {
                    assert(tx_at(old(self), gb[b as int].1, j as int));
                }
                let t = body.first_tx_num + j;
                let stored = match self.tx.transactions.get(&t) {
                    Some(x) => x,
                    None => {
                        return Err(ProviderError::BlockBodyTransactionCount);
                    },
                };
                let signer = match self.tx.transaction_senders.get(&t) {
                    Some(a) => *a,
                    None => match find_recovered(recovered, t) {
                        Some(a) => a,
                        None => {
                            proof {
                                assert(!sender_known(old(self), recovered@, gb[b as int].1, j as int));
                            }
                            return Err(ProviderError::SenderRecoveryError);
                        },
                    },
                };
                let encoded = crate::models::copy_vec(&stored.encoded);
                let hash = keccak256(&encoded);
                let ghost prev = block_txs@;
                block_txs.push(TransactionSignedEcRecovered { transaction: TransactionSigned { hash, encoded }, signer });
                proof {
                    assert(sender_known(old(self), recovered@, body, j as int));
                    assert forall|k: int| 0 <= k < j + 1 implies recovered_tx(old(self), recovered@, (body.first_tx_num + k) as u64, #[trigger] block_txs@[k]) by {
                        if k < j {
                            assert(block_txs@[k] == prev[k]);
                        }
                    }
                }
                j = j + 1;
            }
            let ghost prev_out = out@;
            out.push((number, block_txs));
            proof {
                assert forall|x: int| 0 <= x < b + 1 implies block_result(old(self), recovered@, #[trigger] gb[x], out@[x]) by {
                    if x < b {
                        assert(out@[x] == prev_out[x]);
                    }
                }
                assert forall|x: int, k: int| 0 <= x < b + 1 && 0 <= k < gb[x].1.tx_count implies #[trigger] sender_known(old(self), recovered@, gb[x].1, k) by {
                    if x == b {
                        assert(sender_known(old(self), recovered@, body, k));
                    }
                }
            }
            b = b + 1;
        }
        proof {
            assert forall|x: int| 0 <= x < n implies (#[trigger] out@[x]).0 == gb[x].0 && out@[x].1@.len() == gb[x].1.tx_count && forall|j: int| 0 <= j < gb[x].1.tx_count ==>
                recovered_tx(old(self), recovered@, (gb[x].1.first_tx_num + j) as u64, #[trigger] out@[x].1@[j]) by {
                assert(block_result(old(self), recovered@, gb[x], out@[x]));
            }
        }
        if take && n > 0 {
            let first = bodies[0].1.first_tx_num;
            let last = bodies[n - 1].1.last_tx_num();
            let taken = self.tx.transactions.take_between(&first, &last);
            self.tx.transaction_senders.take_between(&first, &last);
            self.tx.transaction_blocks.take_between(&first, &last);
            remove_row_hashes(&mut self.tx.transaction_hash_numbers, &taken);
        }
        Ok(out)
    }
}

} // verus!
