//! Pruning and truncating tables, and range sizes.
use crate::checkpoints::PruneLimiter;
use crate::table::{Table, TableKey};
use vstd::prelude::*;

verus! {

/// One end of a range of numbers.
#[derive(Clone, Copy, Debug, PartialEq, Eq, Structural)]
pub enum RangeBound {
    Included(u64),
    Excluded(u64),
    Unbounded,
}

/// The number of values in a range, when it is bounded above and its size
/// is known: zero or more, or none if the start passes `u64::MAX` or the end
/// comes before the start.
pub fn range_size_hint(start: RangeBound, end: RangeBound) -> (r: Option<usize>)
    ensures
        ({
            let s: Option<int> = match start {
                RangeBound::Included(x) => Some(x as int),
                RangeBound::Excluded(x) => if x < u64::MAX { Some(x + 1) } else { None },
                RangeBound::Unbounded => Some(0),
            };
            let e: Option<int> = match end {
                RangeBound::Included(x) => Some(if x < u64::MAX { x + 1 } else { u64::MAX as int }),
                RangeBound::Excluded(x) => Some(x as int),
                RangeBound::Unbounded => None,
            };
            match (s, e) {
                (Some(a), Some(b)) => if a <= b && b - a <= usize::MAX { r == Some((b - a) as usize) } else { a > b ==> r is None },
                _ => r is None,
            }
        }),
{
    let s: u64 = match start {
        RangeBound::Included(x) => x,
        RangeBound::Excluded(x) => match x.checked_add(1) {
            Some(v) => v,
            None => {
                return None;
            },
        },
        RangeBound::Unbounded => 0,
    };
    let e: u64 = match end {
        RangeBound::Included(x) => x.saturating_add(1),
        RangeBound::Excluded(x) => x,
        RangeBound::Unbounded => {
            return None;
        },
    };
    match e.checked_sub(s) {
        Some(d) => {
            if (d as u128) <= (usize::MAX as u128) {
                Some(d as usize)
            } else {
                None
            }
        },
        None => None,
    }
}

/// Removes the rows whose key is above `num`, returning how many went.
pub fn unwind_table_by_num<V>(table: &mut Table<u64, V>, num: u64) -> (r: usize)
    requires
        old(table).wf(),
    ensures
        final(table).wf(),
        num == u64::MAX ==> final(table).rows() == old(table).rows(),
        num < u64::MAX ==> final(table).rows() == old(table).rows_outside(num + 1, u64::MAX as int),
        num < u64::MAX ==> r == old(table).rows_between(num + 1, u64::MAX as int).len(),
{
    if num == u64::MAX {
        return 0;
    }
    let lo = num + 1;
    let hi = u64::MAX;
    let removed = table.take_between(&lo, &hi);
    removed.len()
}

/// Deletes the rows under `keys`, in order, until the limiter's budget is
/// spent. Returns the number deleted and whether every key was reached.
pub fn prune_table_with_iterator<K: TableKey, V>(table: &mut Table<K, V>, keys: &Vec<K>, limiter: &mut PruneLimiter) -> (r: (usize, bool))
    requires
        old(table).wf(),
    ensures
        final(table).wf(),
        r.0 <= keys@.len(),
        final(limiter).deleted_entries_limit == old(limiter).deleted_entries_limit,
        !old(limiter).limit_reached() && old(limiter).deleted_entries_limit is None ==> r.1,
        forall|k: K| #[trigger] final(table).view().contains_key(k) ==> old(table).view().contains_key(k) && final(table).view()[k] == old(table).view()[k],
{
    let mut deleted: usize = 0;
    let mut i: usize = 0;
    while i < keys.len()
        invariant
            table.wf(),
            i <= keys@.len(),
            deleted <= i,
            limiter.deleted_entries_limit == old(limiter).deleted_entries_limit,
            old(limiter).deleted_entries_limit is None ==> !limiter.limit_reached(),
            forall|k: K| #[trigger] table.view().contains_key(k) ==> old(table).view().contains_key(k) && table.view()[k] == old(table).view()[k],
        decreases keys@.len() - i,
    {
        if limiter.is_limit_reached() {
            // The key that met the spent budget counts as reached.
            return (deleted, i + 1 >= keys.len());
        }
        let ghost before = table.view();
        let removed = table.remove(&keys[i]);
        if removed.is_some() {
            limiter.increment_deleted_entries_count();
            deleted = deleted + 1;
        }
        proof {
            assert forall|k: K| #[trigger] table.view().contains_key(k) implies old(table).view().contains_key(k) && table.view()[k] == old(table).view()[k] by {
                assert(before.contains_key(k));
            }
        }
        i = i + 1;
    }
    (deleted, true)
}

/// Deletes rows with keys between `lo` and `hi` in key order, one at a time
/// until the range is exhausted or the limiter's budget is spent (checked
/// before each step). Returns the number deleted, whether the run ended
/// with budget left (which is when the range was exhausted), and the deleted
/// rows in key order.
pub fn prune_table_with_range<K: TableKey, V>(table: &mut Table<K, V>, lo: &K, hi: &K, limiter: &mut PruneLimiter) -> (r: (usize, bool, Vec<(K, V)>))
    requires
        old(table).wf(),
    ensures
        final(table).wf(),
        final(limiter).deleted_entries_limit == old(limiter).deleted_entries_limit,
        ({
            let rows = old(table).rows_between(lo.rank(), hi.rank());
            let budget: int = match old(limiter).deleted_entries_limit {
                Some(l) => if l > old(limiter).deleted_entries_count { l - old(limiter).deleted_entries_count } else { 0 },
                None => rows.len() as int,
            };
            &&& r.0 == if budget < rows.len() { budget } else { rows.len() as int }
            &&& r.2@ == rows.subrange(0, r.0 as int)
            &&& final(table).rows_between(lo.rank(), hi.rank()) == rows.subrange(r.0 as int, rows.len() as int)
            &&& final(table).rows_outside(lo.rank(), hi.rank()) == old(table).rows_outside(lo.rank(), hi.rank())
        }),
        final(limiter).deleted_entries_count == if old(limiter).deleted_entries_count + r.0 <= usize::MAX {
            old(limiter).deleted_entries_count + r.0
        } else {
            usize::MAX as int
        },
        r.1 == !final(limiter).limit_reached(),
        r.1 ==> final(table).rows_between(lo.rank(), hi.rank()).len() == 0,
{
    let budget: usize = match limiter.deleted_entries_limit {
        Some(l) => l.saturating_sub(limiter.deleted_entries_count),
        None => usize::MAX,
    };
    let total = table.len();
    proof {
        old(table).rows().lemma_filter_len(|e: (K, V)| crate::table::in_rank_range(e, lo.rank(), hi.rank()));
        assert(old(table).rows_between(lo.rank(), hi.rank()).len() <= total);
    }
    let removed = table.take_first_between(lo, hi, budget);
    let deleted = removed.len();
    limiter.deleted_entries_count = limiter.deleted_entries_count.saturating_add(deleted);
    (deleted, !limiter.is_limit_reached(), removed)
}

} // verus!
