//! History indices: for each account and each storage slot, the blocks at
//! which it changed, kept as sharded lists.
use crate::changes::{distinct_keys, first_per_key, first_value, firsts_of};
use crate::models::{BlockNumberAddress, BlockNumberSlot, SlotKey};
use crate::primitives::{Address, B256};
use crate::provider::{account_change_bounds, storage_change_bounds, DatabaseProvider};
use crate::sharded::{append_history_index, flatten_shards, shards_view, shards_wf, strictly_ascending, unwind_key_history, Shard};
use crate::table::{Table, TableKey, TableValue};
use vstd::prelude::*;

verus! {

/// Every key's shards are well formed.
pub open spec fn history_wf<K: TableKey>(t: &Table<K, Vec<Shard>>) -> bool {
    &&& t.wf()
    &&& forall|k: K| #[trigger] t.view().contains_key(k) ==> shards_wf(shards_view(t.view()[k]@))
}

/// The blocks recorded for `k`, across its shards.
pub open spec fn key_history<K: TableKey>(t: &Table<K, Vec<Shard>>, k: K) -> Seq<u64> {
    if t.view().contains_key(k) {
        flatten_shards(shards_view(t.view()[k]@))
    } else {
        Seq::empty()
    }
}

/// A key's blocks after cutting, in order, at each block given for it: only
/// the blocks below every cut remain.
pub open spec fn cut_history<K>(h: Seq<u64>, cuts: Seq<(K, u64)>, k: K) -> Seq<u64>
    decreases cuts.len(),
{
    if cuts.len() == 0 {
        h
    } else {
        let prev = cut_history(h, cuts.drop_last(), k);
        if cuts.last().0 == k {
            prev.filter(|x: u64| x < cuts.last().1)
        } else {
            prev
        }
    }
}

/// The blocks of the rows whose key is `k`, in row order.
pub open spec fn blocks_of<K>(rows: Seq<(K, u64)>, k: K) -> Seq<u64>
    decreases rows.len(),
{
    if rows.len() == 0 {
        Seq::empty()
    } else {
        let prev = blocks_of(rows.drop_last(), k);
        if rows.last().0 == k {
            prev.push(rows.last().1)
        } else {
            prev
        }
    }
}

/// Adds new change blocks to several keys' shards.
pub fn append_history_for_keys<K: TableKey>(table: &mut Table<K, Vec<Shard>>, updates: &Vec<(K, Vec<u64>)>)
    requires
        old(table).wf(),
        distinct_keys(updates@),
    ensures
        final(table).wf(),
        forall|i: int| 0 <= i < updates@.len() ==> key_history(final(table), #[trigger] updates@[i].0)
            == key_history(old(table), updates@[i].0) + updates@[i].1@,
        forall|k: K| (forall|i: int| 0 <= i < updates@.len() ==> updates@[i].0 != k) ==> #[trigger] final(table).lookup(k) == old(table).lookup(k),
        history_wf(old(table)) && (forall|i: int| 0 <= i < updates@.len() ==> strictly_ascending(
            #[trigger] key_history(old(table), updates@[i].0) + updates@[i].1@)) ==> history_wf(final(table)),
{
    let mut i: usize = 0;
    while i < updates.len()
        invariant
            table.wf(),
            i <= updates@.len(),
            distinct_keys(updates@),
            forall|j: int| 0 <= j < i ==> key_history(table, #[trigger] updates@[j].0)
                == key_history(old(table), updates@[j].0) + updates@[j].1@,
            forall|k: K| (forall|j: int| 0 <= j < i ==> updates@[j].0 != k) ==> #[trigger] table.lookup(k) == old(table).lookup(k),
            history_wf(old(table)) && (forall|j: int| 0 <= j < updates@.len() ==> strictly_ascending(
                #[trigger] key_history(old(table), updates@[j].0) + updates@[j].1@)) ==> history_wf(table),
        decreases updates@.len() - i,
    {
        let k = updates[i].0;
        let ghost t0 = *table;
        proof {
            assert(forall|j: int| 0 <= j < i ==> updates@[j].0 != k);
            assert(table.lookup(k) == old(table).lookup(k));
        }
        let mut shards = match table.remove(&k) {
            Some(s) => s,
            None => Vec::new(),
        };
        proof {
            if !t0.view().contains_key(k) {
                assert(shards_view(shards@) =~= Seq::<(u64, Seq<u64>)>::empty());
            }
        }
        append_history_index(&mut shards, &updates[i].1);
        table.put(k, shards);
        proof {
            assert forall|j: int| 0 <= j < i + 1 implies key_history(table, #[trigger] updates@[j].0)
                == key_history(old(table), updates@[j].0) + updates@[j].1@ by {
                if j < i {
                    assert(updates@[j].0 != k);
                    assert(key_history(table, updates@[j].0) == key_history(&t0, updates@[j].0));
                }
            }
            assert forall|a: K| (forall|j: int| 0 <= j < i + 1 ==> updates@[j].0 != a) implies #[trigger] table.lookup(a) == old(table).lookup(a) by {
                assert(updates@[i as int].0 != a);
                assert(t0.lookup(a) == old(table).lookup(a));
                assert(table.view().contains_key(a) == t0.view().contains_key(a));
            }
            if history_wf(old(table)) && (forall|j: int| 0 <= j < updates@.len() ==> strictly_ascending(
                #[trigger] key_history(old(table), updates@[j].0) + updates@[j].1@)) {
                assert(strictly_ascending(key_history(old(table), updates@[i as int].0) + updates@[i as int].1@));
                assert forall|a: K| #[trigger] table.view().contains_key(a) implies shards_wf(shards_view(table.view()[a]@)) by {
                    if a != k {
                        assert(t0.view().contains_key(a));
                    } else {
                        if t0.view().contains_key(k) {
                            assert(shards_wf(shards_view(t0.view()[k]@)));
                        }
                    }
                }
            }
        }
        i = i + 1;
    }
}

/// Cuts several keys' shards back to the blocks below the given ones.
pub fn unwind_history_for_keys<K: TableKey>(table: &mut Table<K, Vec<Shard>>, cuts: &Vec<(K, u64)>)
    requires
        history_wf(old(table)),
    ensures
        history_wf(final(table)),
        forall|k: K| #[trigger] key_history(final(table), k) == cut_history(key_history(old(table), k), cuts@, k),
        forall|k: K| (forall|i: int| 0 <= i < cuts@.len() ==> cuts@[i].0 != k) ==> #[trigger] final(table).lookup(k) == old(table).lookup(k),
{
    let mut i: usize = 0;
    while i < cuts.len()
        invariant
            history_wf(table),
            i <= cuts@.len(),
            forall|k: K| #[trigger] key_history(table, k) == cut_history(key_history(old(table), k), cuts@.subrange(0, i as int), k),
            forall|k: K| (forall|j: int| 0 <= j < i ==> cuts@[j].0 != k) ==> #[trigger] table.lookup(k) == old(table).lookup(k),
        decreases cuts@.len() - i,
    {
        let (k, block_number) = cuts[i];
        let ghost t0 = *table;
        let mut shards = match table.remove(&k) {
            Some(s) => s,
            None => Vec::new(),
        };
        proof {
            if !t0.view().contains_key(k) {
                assert(shards_view(shards@) =~= Seq::<(u64, Seq<u64>)>::empty());
            } else {
                assert(shards_wf(shards_view(t0.view()[k]@)));
            }
            assert(flatten_shards(shards_view(shards@)) == key_history(&t0, k));
        }
        unwind_key_history(&mut shards, block_number);
        if shards.len() > 0 {
            table.put(k, shards);
        } else {
            proof {
                assert(shards_view(shards@) =~= Seq::<(u64, Seq<u64>)>::empty());
            }
        }
        proof {
            let c0 = cuts@.subrange(0, i as int);
            let c1 = cuts@.subrange(0, i + 1);
            assert(c1.drop_last() =~= c0);
            assert forall|a: K| #[trigger] key_history(table, a) == cut_history(key_history(old(table), a), c1, a) by {
                assert(key_history(&t0, a) == cut_history(key_history(old(table), a), c0, a));
            }
            assert forall|a: K| #[trigger] table.view().contains_key(a) implies shards_wf(shards_view(table.view()[a]@)) by {
                if a != k {
                    assert(t0.view().contains_key(a));
                }
            }
            assert forall|a: K| (forall|j: int| 0 <= j < i + 1 ==> cuts@[j].0 != a) implies #[trigger] table.lookup(a) == old(table).lookup(a) by {
                assert(cuts@[i as int].0 != a);
                assert(t0.lookup(a) == old(table).lookup(a));
                assert(table.view().contains_key(a) == t0.view().contains_key(a));
            }
        }
        i = i + 1;
    }
    proof {
        assert(cuts@.subrange(0, i as int) =~= cuts@);
    }
}

/// Account-change rows as (address, block).
pub open spec fn account_blocks(rows: Seq<(BlockNumberAddress, Option<crate::models::Account>)>) -> Seq<(Address, u64)> {
    Seq::new(rows.len(), |i: int| (rows[i].0.address, rows[i].0.block_number))
}

/// Storage-change rows as (slot, block).
pub open spec fn slot_blocks(rows: Seq<(BlockNumberSlot, crate::primitives::U256)>) -> Seq<(SlotKey, u64)> {
    Seq::new(rows.len(), |i: int| (SlotKey { address: rows[i].0.address, slot: rows[i].0.slot }, rows[i].0.block_number))
}

/// Each key of `rows` once, with the blocks of its rows in row order.
pub fn group_blocks<K: TableKey>(rows: &Vec<(K, u64)>) -> (r: Vec<(K, Vec<u64>)>)
    ensures
        distinct_keys(r@),
        forall|i: int| 0 <= i < r@.len() ==> (#[trigger] r@[i]).1@ == blocks_of(rows@, r@[i].0) && first_value(rows@, r@[i].0) is Some,
        forall|k: K| #[trigger] first_value(rows@, k) is Some ==> exists|i: int| 0 <= i < r@.len() && r@[i].0 == k,
{
    let firsts = first_per_key(rows);
    let mut out: Vec<(K, Vec<u64>)> = Vec::new();
    let mut i: usize = 0;
    while i < firsts.len()
        invariant
            firsts_of(firsts@, rows@),
            i <= firsts@.len(),
            out@.len() == i,
            forall|j: int| 0 <= j < i ==> (#[trigger] out@[j]).0 == firsts@[j].0 && out@[j].1@ == blocks_of(rows@, out@[j].0),
        decreases firsts@.len() - i,
    {
        let k = firsts[i].0;
        let mut blocks: Vec<u64> = Vec::new();
        let mut j: usize = 0;
        while j < rows.len()
            invariant
                j <= rows@.len(),
                blocks@ == blocks_of(rows@.subrange(0, j as int), k),
            decreases rows@.len() - j,
        {
            if rows[j].0.key_eq(&k) {
                proof {
                    K::lemma_rank_injective(rows@[j as int].0, k);
                }
                blocks.push(rows[j].1);
            }
            proof {
                assert(rows@.subrange(0, j + 1).drop_last() =~= rows@.subrange(0, j as int));
            }
            j = j + 1;
        }
        proof {
            assert(rows@.subrange(0, j as int) =~= rows@);
        }
        out.push((k, blocks));
        i = i + 1;
    }
    proof {
        assert forall|x: int, y: int| 0 <= x < y < out@.len() implies out@[x].0 != out@[y].0 by {
            assert(out@[x].0 == firsts@[x].0 && out@[y].0 == firsts@[y].0);
        }
        assert forall|x: int| 0 <= x < out@.len() implies first_value(rows@, (#[trigger] out@[x]).0) is Some by {
            assert(first_value(rows@, firsts@[x].0) == Some(firsts@[x].1));
        }
        assert forall|k: K| #[trigger] first_value(rows@, k) is Some implies exists|x: int| 0 <= x < out@.len() && out@[x].0 == k by {
            let x = choose|x: int| 0 <= x < firsts@.len() && firsts@[x].0 == k;
            assert(out@[x].0 == k);
        }
    }
    out
}

impl DatabaseProvider {
    fn account_change_blocks(&self, start: u64, end: u64) -> (r: Vec<(Address, u64)>)
        requires
            self.wf(),
        ensures
            ({
                let (lo, hi) = account_change_bounds(start, end);
                r@ == account_blocks(self.tx.account_changesets.rows_between(lo, hi))
            }),
    {
        let lo = BlockNumberAddress { block_number: start, address: Address { hi: 0, mid: 0, lo: 0 } };
        let hi = BlockNumberAddress { block_number: end, address: Address { hi: u64::MAX, mid: u64::MAX, lo: u32::MAX } };
        let rows = self.tx.account_changesets.between(&lo, &hi);
        let ghost g = self.tx.account_changesets.rows_between(lo.rank(), hi.rank());
        let mut out: Vec<(Address, u64)> = Vec::new();
        let mut i: usize = 0;
        while i < rows.len()
            invariant
                i <= rows@.len(),
                rows@.len() == g.len(),
                forall|j: int| 0 <= j < rows@.len() ==> #[trigger] rows@[j].0 == g[j].0 && rows@[j].1.image() == g[j].1.image(),
                out@ == account_blocks(g.subrange(0, i as int)),
            decreases rows@.len() - i,
        {
            out.push((rows[i].0.address, rows[i].0.block_number));
            proof {
                assert(rows@[i as int].0 == g[i as int].0);
                assert(out@ =~= account_blocks(g.subrange(0, i + 1)));
            }
            i = i + 1;
        }
        proof {
            assert(g.subrange(0, i as int) =~= g);
        }
        out
    }

    fn storage_change_blocks(&self, start: u64, end: u64) -> (r: Vec<(SlotKey, u64)>)
        requires
            self.wf(),
        ensures
            ({
                let (lo, hi) = storage_change_bounds(start, end);
                r@ == slot_blocks(self.tx.storage_changesets.rows_between(lo, hi))
            }),
    {
        let lo = BlockNumberSlot { block_number: start, address: Address { hi: 0, mid: 0, lo: 0 }, slot: B256 { a: 0, b: 0, c: 0, d: 0 } };
        let hi = BlockNumberSlot { block_number: end, address: Address { hi: u64::MAX, mid: u64::MAX, lo: u32::MAX }, slot: B256 { a: u64::MAX, b: u64::MAX, c: u64::MAX, d: u64::MAX } };
        let rows = self.tx.storage_changesets.between(&lo, &hi);
        let ghost g = self.tx.storage_changesets.rows_between(lo.rank(), hi.rank());
        let mut out: Vec<(SlotKey, u64)> = Vec::new();
        let mut i: usize = 0;
        while i < rows.len()
            invariant
                i <= rows@.len(),
                rows@.len() == g.len(),
                forall|j: int| 0 <= j < rows@.len() ==> #[trigger] rows@[j].0 == g[j].0 && rows@[j].1.image() == g[j].1.image(),
                out@ == slot_blocks(g.subrange(0, i as int)),
            decreases rows@.len() - i,
        {
            out.push((SlotKey { address: rows[i].0.address, slot: rows[i].0.slot }, rows[i].0.block_number));
            proof {
                assert(rows@[i as int].0 == g[i as int].0);
                assert(out@ =~= slot_blocks(g.subrange(0, i + 1)));
            }
            i = i + 1;
        }
        proof {
            assert(g.subrange(0, i as int) =~= g);
        }
        out
    }

    /// Each account changed in blocks `start..=end`, once, with the blocks
    /// that changed it in ascending order.
    pub fn changed_accounts_and_blocks_with_range(&self, start: u64, end: u64) -> (r: Vec<(Address, Vec<u64>)>)
        requires
            self.wf(),
        ensures
            ({
                let (lo, hi) = account_change_bounds(start, end);
                let rows = account_blocks(self.tx.account_changesets.rows_between(lo, hi));
                &&& distinct_keys(r@)
                &&& forall|i: int| 0 <= i < r@.len() ==> (#[trigger] r@[i]).1@ == blocks_of(rows, r@[i].0) && first_value(rows, r@[i].0) is Some
                &&& forall|a: Address| #[trigger] first_value(rows, a) is Some ==> exists|i: int| 0 <= i < r@.len() && r@[i].0 == a
            }),
    {
        let rows = self.account_change_blocks(start, end);
        group_blocks(&rows)
    }

    /// Each storage slot changed in blocks `start..=end`, once, with the
    /// blocks that changed it in ascending order.
    pub fn changed_storages_and_blocks_with_range(&self, start: u64, end: u64) -> (r: Vec<(SlotKey, Vec<u64>)>)
        requires
            self.wf(),
        ensures
            ({
                let (lo, hi) = storage_change_bounds(start, end);
                let rows = slot_blocks(self.tx.storage_changesets.rows_between(lo, hi));
                &&& distinct_keys(r@)
                &&& forall|i: int| 0 <= i < r@.len() ==> (#[trigger] r@[i]).1@ == blocks_of(rows, r@[i].0) && first_value(rows, r@[i].0) is Some
                &&& forall|k: SlotKey| #[trigger] first_value(rows, k) is Some ==> exists|i: int| 0 <= i < r@.len() && r@[i].0 == k
            }),
    {
        let rows = self.storage_change_blocks(start, end);
        group_blocks(&rows)
    }

    /// Appends each account's new change blocks to its history shards.
    pub fn insert_account_history_index(&mut self, transitions: &Vec<(Address, Vec<u64>)>)
        requires
            old(self).wf(),
            distinct_keys(transitions@),
        ensures
            final(self).wf(),
            final(self).static_file_provider == old(self).static_file_provider,
            final(self).chain_spec == old(self).chain_spec,
            final(self).tx.same_chain(&old(self).tx),
            final(self).tx.same_state(&old(self).tx),
            final(self).tx.storages_history == old(self).tx.storages_history,
            final(self).tx.hashed_accounts == old(self).tx.hashed_accounts,
            final(self).tx.hashed_storages == old(self).tx.hashed_storages,
            final(self).tx.stage_checkpoints == old(self).tx.stage_checkpoints,
            final(self).tx.prune_checkpoints == old(self).tx.prune_checkpoints,
            final(self).tx.stage_checkpoint_progresses == old(self).tx.stage_checkpoint_progresses,
            forall|i: int| 0 <= i < transitions@.len() ==> key_history(&final(self).tx.accounts_history, #[trigger] transitions@[i].0)
                == key_history(&old(self).tx.accounts_history, transitions@[i].0) + transitions@[i].1@,
            forall|a: Address| (forall|i: int| 0 <= i < transitions@.len() ==> transitions@[i].0 != a) ==> #[trigger] final(self).tx.accounts_history.lookup(a) == old(self).tx.accounts_history.lookup(a),
            history_wf(&old(self).tx.accounts_history) && (forall|i: int| 0 <= i < transitions@.len() ==> strictly_ascending(
                #[trigger] key_history(&old(self).tx.accounts_history, transitions@[i].0) + transitions@[i].1@)) ==> history_wf(&final(self).tx.accounts_history),
    {
        append_history_for_keys(&mut self.tx.accounts_history, transitions);
    }

    /// Appends each storage slot's new change blocks to its history shards.
    pub fn insert_storage_history_index(&mut self, transitions: &Vec<(SlotKey, Vec<u64>)>)
        requires
            old(self).wf(),
            distinct_keys(transitions@),
        ensures
            final(self).wf(),
            final(self).static_file_provider == old(self).static_file_provider,
            final(self).chain_spec == old(self).chain_spec,
            final(self).tx.same_chain(&old(self).tx),
            final(self).tx.same_state(&old(self).tx),
            final(self).tx.accounts_history == old(self).tx.accounts_history,
            final(self).tx.hashed_accounts == old(self).tx.hashed_accounts,
            final(self).tx.hashed_storages == old(self).tx.hashed_storages,
            final(self).tx.stage_checkpoints == old(self).tx.stage_checkpoints,
            final(self).tx.prune_checkpoints == old(self).tx.prune_checkpoints,
            final(self).tx.stage_checkpoint_progresses == old(self).tx.stage_checkpoint_progresses,
            forall|i: int| 0 <= i < transitions@.len() ==> key_history(&final(self).tx.storages_history, #[trigger] transitions@[i].0)
                == key_history(&old(self).tx.storages_history, transitions@[i].0) + transitions@[i].1@,
            forall|k: SlotKey| (forall|i: int| 0 <= i < transitions@.len() ==> transitions@[i].0 != k) ==> #[trigger] final(self).tx.storages_history.lookup(k) == old(self).tx.storages_history.lookup(k),
            history_wf(&old(self).tx.storages_history) && (forall|i: int| 0 <= i < transitions@.len() ==> strictly_ascending(
                #[trigger] key_history(&old(self).tx.storages_history, transitions@[i].0) + transitions@[i].1@)) ==> history_wf(&final(self).tx.storages_history),
    {
        append_history_for_keys(&mut self.tx.storages_history, transitions);
    }

    /// Indexes the account and storage changes of blocks `start..=end`:
    /// each changed key's history gains the blocks that changed it.
    pub fn update_history_indices(&mut self, start: u64, end: u64)
        requires
            old(self).wf(),
        ensures
            final(self).wf(),
            final(self).static_file_provider == old(self).static_file_provider,
            final(self).chain_spec == old(self).chain_spec,
            final(self).tx.same_chain(&old(self).tx),
            final(self).tx.same_state(&old(self).tx),
            final(self).tx.hashed_accounts == old(self).tx.hashed_accounts,
            final(self).tx.hashed_storages == old(self).tx.hashed_storages,
            final(self).tx.stage_checkpoints == old(self).tx.stage_checkpoints,
            final(self).tx.prune_checkpoints == old(self).tx.prune_checkpoints,
            final(self).tx.stage_checkpoint_progresses == old(self).tx.stage_checkpoint_progresses,
            ({
                let (alo, ahi) = account_change_bounds(start, end);
                let arows = account_blocks(old(self).tx.account_changesets.rows_between(alo, ahi));
                &&& forall|a: Address| #[trigger] key_history(&final(self).tx.accounts_history, a)
                    == key_history(&old(self).tx.accounts_history, a) + blocks_of(arows, a)
                &&& history_wf(&old(self).tx.accounts_history) && (forall|a: Address| #[trigger] strictly_ascending(
                    key_history(&old(self).tx.accounts_history, a) + blocks_of(arows, a))) ==> history_wf(&final(self).tx.accounts_history)
            }),
            ({
                let (slo, shi) = storage_change_bounds(start, end);
                let srows = slot_blocks(old(self).tx.storage_changesets.rows_between(slo, shi));
                &&& forall|k: SlotKey| #[trigger] key_history(&final(self).tx.storages_history, k)
                    == key_history(&old(self).tx.storages_history, k) + blocks_of(srows, k)
                &&& history_wf(&old(self).tx.storages_history) && (forall|k: SlotKey| #[trigger] strictly_ascending(
                    key_history(&old(self).tx.storages_history, k) + blocks_of(srows, k))) ==> history_wf(&final(self).tx.storages_history)
            }),
    {
        let ghost o = self.tx;
        let accounts = self.changed_accounts_and_blocks_with_range(start, end);
        let ghost arows = account_blocks(o.account_changesets.rows_between(account_change_bounds(start, end).0, account_change_bounds(start, end).1));
        proof {
            assert forall|i: int| 0 <= i < accounts@.len() implies accounts@[i].1@ == blocks_of(arows, #[trigger] accounts@[i].0) by {
                assert(accounts@[i].1@ == blocks_of(arows, accounts@[i].0));
            }
        }
        self.insert_account_history_index(&accounts);
        proof {
            assert forall|a: Address| #[trigger] key_history(&self.tx.accounts_history, a)
                == key_history(&o.accounts_history, a) + blocks_of(arows, a) by {
                if first_value(arows, a) is Some {
                    let i = choose|i: int| 0 <= i < accounts@.len() && accounts@[i].0 == a;
                    assert(key_history(&self.tx.accounts_history, accounts@[i].0) == key_history(&o.accounts_history, accounts@[i].0) + accounts@[i].1@);
                } else {
                    lemma_no_blocks(arows, a);
                    assert(key_history(&o.accounts_history, a) + blocks_of(arows, a) =~= key_history(&o.accounts_history, a));
                    assert forall|i: int| 0 <= i < accounts@.len() implies accounts@[i].0 != a by {
                        if accounts@[i].0 == a {
                            assert(first_value(arows, accounts@[i].0) is Some);
                        }
                    }
                    assert(self.tx.accounts_history.lookup(a) == o.accounts_history.lookup(a));
                    assert(self.tx.accounts_history.view().contains_key(a) == o.accounts_history.view().contains_key(a));
                }
            }
        }
        let ghost mid = self.tx;
        let storages = self.changed_storages_and_blocks_with_range(start, end);
        let ghost srows = slot_blocks(o.storage_changesets.rows_between(storage_change_bounds(start, end).0, storage_change_bounds(start, end).1));
        proof {
            assert forall|i: int| 0 <= i < storages@.len() implies storages@[i].1@ == blocks_of(srows, #[trigger] storages@[i].0) by {
                assert(storages@[i].1@ == blocks_of(srows, storages@[i].0));
            }
        }
        self.insert_storage_history_index(&storages);
        proof {
            assert forall|k: SlotKey| #[trigger] key_history(&self.tx.storages_history, k)
                == key_history(&o.storages_history, k) + blocks_of(srows, k) by {
                if first_value(srows, k) is Some {
                    let i = choose|i: int| 0 <= i < storages@.len() && storages@[i].0 == k;
                    assert(key_history(&self.tx.storages_history, storages@[i].0) == key_history(&mid.storages_history, storages@[i].0) + storages@[i].1@);
                } else {
                    lemma_no_blocks(srows, k);
                    assert(key_history(&o.storages_history, k) + blocks_of(srows, k) =~= key_history(&o.storages_history, k));
                    assert forall|i: int| 0 <= i < storages@.len() implies storages@[i].0 != k by {
                        if storages@[i].0 == k {
                            assert(first_value(srows, storages@[i].0) is Some);
                        }
                    }
                    assert(self.tx.storages_history.lookup(k) == mid.storages_history.lookup(k));
                    assert(self.tx.storages_history.view().contains_key(k) == mid.storages_history.view().contains_key(k));
                }
            }
        }
    }

    /// Cuts the history of every account changed in blocks `start..=end` back
    /// to the blocks below its first change in the range. Returns the number
    /// of change rows read.
    pub fn unwind_account_history_indices(&mut self, start: u64, end: u64) -> (r: usize)
        requires
            old(self).wf(),
            history_wf(&old(self).tx.accounts_history),
        ensures
            final(self).wf(),
            history_wf(&final(self).tx.accounts_history),
            final(self).static_file_provider == old(self).static_file_provider,
            final(self).chain_spec == old(self).chain_spec,
            final(self).tx.same_chain(&old(self).tx),
            final(self).tx.same_state(&old(self).tx),
            final(self).tx.storages_history == old(self).tx.storages_history,
            final(self).tx.hashed_accounts == old(self).tx.hashed_accounts,
            final(self).tx.hashed_storages == old(self).tx.hashed_storages,
            final(self).tx.stage_checkpoints == old(self).tx.stage_checkpoints,
            final(self).tx.prune_checkpoints == old(self).tx.prune_checkpoints,
            final(self).tx.stage_checkpoint_progresses == old(self).tx.stage_checkpoint_progresses,
            ({
                let (lo, hi) = account_change_bounds(start, end);
                let rows = account_blocks(old(self).tx.account_changesets.rows_between(lo, hi));
                &&& r == rows.len()
                &&& forall|a: Address| #[trigger] key_history(&final(self).tx.accounts_history, a)
                    == cut_history(key_history(&old(self).tx.accounts_history, a), rows, a)
            }),
    {
        let cuts = self.account_change_blocks(start, end);
        unwind_history_for_keys(&mut self.tx.accounts_history, &cuts);
        cuts.len()
    }

    /// Cuts the history of every storage slot changed in blocks `start..=end`
    /// back to the blocks below its first change in the range. Returns the
    /// number of change rows read.
    pub fn unwind_storage_history_indices(&mut self, start: u64, end: u64) -> (r: usize)
        requires
            old(self).wf(),
            history_wf(&old(self).tx.storages_history),
        ensures
            final(self).wf(),
            history_wf(&final(self).tx.storages_history),
            final(self).static_file_provider == old(self).static_file_provider,
            final(self).chain_spec == old(self).chain_spec,
            final(self).tx.same_chain(&old(self).tx),
            final(self).tx.same_state(&old(self).tx),
            final(self).tx.accounts_history == old(self).tx.accounts_history,
            final(self).tx.hashed_accounts == old(self).tx.hashed_accounts,
            final(self).tx.hashed_storages == old(self).tx.hashed_storages,
            final(self).tx.stage_checkpoints == old(self).tx.stage_checkpoints,
            final(self).tx.prune_checkpoints == old(self).tx.prune_checkpoints,
            final(self).tx.stage_checkpoint_progresses == old(self).tx.stage_checkpoint_progresses,
            ({
                let (lo, hi) = storage_change_bounds(start, end);
                let rows = slot_blocks(old(self).tx.storage_changesets.rows_between(lo, hi));
                &&& r == rows.len()
                &&& forall|k: SlotKey| #[trigger] key_history(&final(self).tx.storages_history, k)
                    == cut_history(key_history(&old(self).tx.storages_history, k), rows, k)
            }),
    {
        let cuts = self.storage_change_blocks(start, end);
        unwind_history_for_keys(&mut self.tx.storages_history, &cuts);
        cuts.len()
    }
}

/// `x` is below every cut given for `k`.
pub open spec fn below_all_cuts<K>(x: u64, cuts: Seq<(K, u64)>, k: K) -> bool {
    forall|i: int| 0 <= i < cuts.len() && cuts[i].0 == k ==> x < #[trigger] cuts[i].1
}

proof fn lemma_filter_filter(s: Seq<u64>, p: spec_fn(u64) -> bool, q: spec_fn(u64) -> bool)
    ensures
        s.filter(p).filter(q) == s.filter(|x: u64| p(x) && q(x)),
    decreases s.len(),
{
    reveal(Seq::filter);
    if s.len() > 0 {
        lemma_filter_filter(s.drop_last(), p, q);
        let sub = s.drop_last().filter(p);
        if p(s.last()) {
            assert(sub.push(s.last()).drop_last() =~= sub);
        }
    }
}

/// Cutting at several blocks keeps exactly the entries below every cut.
pub proof fn lemma_cut_history_filters<K>(h: Seq<u64>, cuts: Seq<(K, u64)>, k: K)
    ensures
        cut_history(h, cuts, k) == h.filter(|x: u64| below_all_cuts(x, cuts, k)),
    decreases cuts.len(),
{
    if cuts.len() == 0 {
        crate::table::lemma_filter_all(h, |x: u64| below_all_cuts(x, cuts, k));
        assert(cut_history(h, cuts, k) == h);
    } else {
        let d = cuts.drop_last();
        lemma_cut_history_filters(h, d, k);
        let c = cuts.last();
        if c.0 == k {
            let pd = |x: u64| below_all_cuts(x, d, k);
            let q = |x: u64| x < c.1;
            lemma_filter_filter(h, pd, q);
            let comb = |x: u64| pd(x) && q(x);
            let f2 = |x: u64| below_all_cuts(x, cuts, k);
            assert forall|x: u64| #[trigger] comb(x) == f2(x) by {
                if below_all_cuts(x, d, k) && x < c.1 {
                    assert forall|i: int| 0 <= i < cuts.len() && cuts[i].0 == k implies x < #[trigger] cuts[i].1 by {
                        if i < d.len() {
                            assert(d[i] == cuts[i]);
                        }
                    }
                }
                if below_all_cuts(x, cuts, k) {
                    assert(cuts[cuts.len() - 1] == c);
                    assert forall|i: int| 0 <= i < d.len() && d[i].0 == k implies x < #[trigger] d[i].1 by {
                        assert(cuts[i] == d[i]);
                    }
                }
            }
            assert(comb =~= f2);
            assert(cut_history(h, d, k) == h.filter(pd));
            assert(cut_history(h, cuts, k) == h.filter(pd).filter(q));
        } else {
            assert forall|x: u64| below_all_cuts(x, d, k) == below_all_cuts(x, cuts, k) by {
                if below_all_cuts(x, d, k) {
                    assert forall|i: int| 0 <= i < cuts.len() && cuts[i].0 == k implies x < #[trigger] cuts[i].1 by {
                        if i < d.len() {
                            assert(d[i] == cuts[i]);
                        }
                    }
                }
                if below_all_cuts(x, cuts, k) {
                    assert forall|i: int| 0 <= i < d.len() && d[i].0 == k implies x < #[trigger] d[i].1 by {
                        assert(cuts[i] == d[i]);
                    }
                }
            }
            let f1 = |x: u64| below_all_cuts(x, d, k);
            let f2 = |x: u64| below_all_cuts(x, cuts, k);
            assert(f1 =~= f2);
            assert(cut_history(h, cuts, k) == h.filter(f1));
        }
    }
}

/// The round trip of indexing a block range and unwinding it, on one key's
/// history: if every entry already recorded is below every cut, and every
/// entry the range added is at or above some cut for the key, the unwind
/// leaves exactly the entries that were there before.
pub proof fn lemma_unwind_restores_history<K>(before: Seq<u64>, added: Seq<u64>, cuts: Seq<(K, u64)>, k: K)
    requires
        forall|j: int| 0 <= j < before.len() ==> below_all_cuts(#[trigger] before[j], cuts, k),
        forall|j: int| 0 <= j < added.len() ==> exists|i: int| 0 <= i < cuts.len() && cuts[i].0 == k && cuts[i].1 <= #[trigger] added[j],
    ensures
        cut_history(before + added, cuts, k) == before,
{
    let p = |x: u64| below_all_cuts(x, cuts, k);
    lemma_cut_history_filters(before + added, cuts, k);
    Seq::filter_distributes_over_add(before, added, p);
    crate::table::lemma_filter_all(before, p);
    assert forall|j: int| 0 <= j < added.len() implies !p(added[j]) by {
        let i = choose|i: int| 0 <= i < cuts.len() && cuts[i].0 == k && cuts[i].1 <= added[j];
    }
    crate::table::lemma_filter_none(added, p);
    assert(before + Seq::<u64>::empty() =~= before);
}

proof fn lemma_filter_agree(s: Seq<u64>, p: spec_fn(u64) -> bool, q: spec_fn(u64) -> bool)
    requires
        forall|i: int| 0 <= i < s.len() ==> p(s[i]) == q(s[i]),
    ensures
        s.filter(p) == s.filter(q),
    decreases s.len(),
{
    reveal(Seq::filter);
    if s.len() > 0 {
        lemma_filter_agree(s.drop_last(), p, q);
    }
}

/// Cutting a key's history at blocks that are all at or above `a`, where
/// every entry at or above `a` is itself at or above one of the cuts, leaves
/// exactly the entries below `a`.
pub proof fn lemma_cuts_keep_below<K>(h: Seq<u64>, cuts: Seq<(K, u64)>, k: K, a: u64)
    requires
        forall|i: int| 0 <= i < cuts.len() && cuts[i].0 == k ==> #[trigger] cuts[i].1 >= a,
        forall|j: int| 0 <= j < h.len() && h[j] >= a ==> exists|i: int| 0 <= i < cuts.len() && cuts[i].0 == k && cuts[i].1 <= #[trigger] h[j],
    ensures
        cut_history(h, cuts, k) == h.filter(|x: u64| x < a),
{
    lemma_cut_history_filters(h, cuts, k);
    assert forall|j: int| 0 <= j < h.len() implies below_all_cuts(h[j], cuts, k) == (h[j] < a) by {
        if h[j] < a {
            assert forall|i: int| 0 <= i < cuts.len() && cuts[i].0 == k implies h[j] < #[trigger] cuts[i].1 by {}
        } else {
            let i = choose|i: int| 0 <= i < cuts.len() && cuts[i].0 == k && cuts[i].1 <= h[j];
            assert(!(h[j] < cuts[i].1));
        }
    }
    lemma_filter_agree(h, |x: u64| below_all_cuts(x, cuts, k), |x: u64| x < a);
}

/// The law of unwinding account history: when every block recorded for an
/// account at or above `start` is a block at which that account changed
/// within `start..=end`, cutting at that range's changes (as
/// `unwind_account_history_indices` does) leaves exactly its blocks below
/// `start`.
pub proof fn lemma_account_history_unwind(rows: Seq<(BlockNumberAddress, Option<crate::models::Account>)>, h: Seq<u64>, a: Address, start: u64, end: u64)
    requires
        forall|i: int| 0 <= i < rows.len() ==> (#[trigger] rows[i]).0.block_number >= start,
        forall|j: int| 0 <= j < h.len() && h[j] >= start ==> exists|i: int| 0 <= i < rows.len() && rows[i].0.address == a && rows[i].0.block_number == #[trigger] h[j],
    ensures
        cut_history(h, account_blocks(rows), a) == h.filter(|x: u64| x < start),
{
    let cuts = account_blocks(rows);
    assert forall|i: int| 0 <= i < cuts.len() && cuts[i].0 == a implies #[trigger] cuts[i].1 >= start by {
        assert(rows[i].0.block_number >= start);
    }
    assert forall|j: int| 0 <= j < h.len() && h[j] >= start implies exists|i: int| 0 <= i < cuts.len() && cuts[i].0 == a && cuts[i].1 <= #[trigger] h[j] by {
        let i = choose|i: int| 0 <= i < rows.len() && rows[i].0.address == a && rows[i].0.block_number == h[j];
        assert(cuts[i].0 == a && cuts[i].1 <= h[j]);
    }
    lemma_cuts_keep_below(h, cuts, a, start);
}

/// The rows of a block range's account changes are all at or after its
/// first block.
pub proof fn lemma_account_rows_from_start(t: &Table<BlockNumberAddress, Option<crate::models::Account>>, start: u64, end: u64)
    ensures
        ({
            let (lo, hi) = account_change_bounds(start, end);
            forall|i: int| 0 <= i < t.rows_between(lo, hi).len() ==> (#[trigger] t.rows_between(lo, hi)[i]).0.block_number >= start
        }),
{
    let (lo, hi) = account_change_bounds(start, end);
    let pred = |e: (BlockNumberAddress, Option<crate::models::Account>)| crate::table::in_rank_range(e, lo, hi);
    assert forall|i: int| 0 <= i < t.rows_between(lo, hi).len() implies (#[trigger] t.rows_between(lo, hi)[i]).0.block_number >= start by {
        t.rows().lemma_filter_pred(pred, i);
        let e = t.rows_between(lo, hi)[i];
        let l = BlockNumberAddress { block_number: start, address: crate::provider::min_address() };
        crate::models::lemma_block_address_rank(e.0, l);
        crate::models::lemma_block_address_rank(l, e.0);
        crate::primitives::lemma_address_rank(e.0.address, l.address);
    }
}

proof fn lemma_no_blocks<K>(rows: Seq<(K, u64)>, k: K)
    requires
        first_value(rows, k) is None,
    ensures
        blocks_of(rows, k) == Seq::<u64>::empty(),
    decreases rows.len(),
{
    if rows.len() > 0 {
        crate::changes::lemma_first_value_push(rows.drop_last(), rows.last(), k);
        assert(rows.drop_last().push(rows.last()) =~= rows);
        lemma_no_blocks(rows.drop_last(), k);
    }
}

} // verus!
