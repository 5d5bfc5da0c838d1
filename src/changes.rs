//! Reducing change rows to the earliest change per key, and reverting a table
//! to those values.
use crate::table::{Table, TableKey};
use vstd::prelude::*;

verus! {

/// The value of the first row of `rows` with key `k`, if any.
pub open spec fn first_value<K, V>(rows: Seq<(K, V)>, k: K) -> Option<V>
    decreases rows.len(),
{
    if rows.len() == 0 {
        None
    } else if rows[0].0 == k {
        Some(rows[0].1)
    } else {
        first_value(rows.drop_first(), k)
    }
}

pub proof fn lemma_first_value_push<K, V>(rows: Seq<(K, V)>, x: (K, V), k: K)
    ensures
        first_value(rows.push(x), k) == match first_value(rows, k) {
            Some(v) => Some(v),
            None => if x.0 == k {
                Some(x.1)
            } else {
                None
            },
        },
    decreases rows.len(),
{
    if rows.len() > 0 {
        assert(rows.push(x)[0] == rows[0]);
        assert(rows.push(x).drop_first() =~= rows.drop_first().push(x));
        lemma_first_value_push(rows.drop_first(), x, k);
    } else {
        assert(rows.push(x)[0] == x);
        assert(rows.push(x).drop_first() =~= Seq::<(K, V)>::empty());
        assert(first_value(Seq::<(K, V)>::empty(), k) is None);
    }
}

/// Keys are pairwise distinct.
pub open spec fn distinct_keys<K, V>(s: Seq<(K, V)>) -> bool {
    forall|i: int, j: int| 0 <= i < j < s.len() ==> s[i].0 != s[j].0
}

/// `r` holds each key of `rows` once, with the value of its first row.
pub open spec fn firsts_of<K, V>(r: Seq<(K, V)>, rows: Seq<(K, V)>) -> bool {
    &&& distinct_keys(r)
    &&& forall|i: int| 0 <= i < r.len() ==> first_value(rows, #[trigger] r[i].0) == Some(r[i].1)
    &&& forall|k: K|
        #[trigger] first_value(rows, k) is Some ==> exists|i: int| 0 <= i < r.len() && r[i].0 == k
}

/// The index of the entry with key `k`, if any.
pub fn find_key<K: TableKey, V>(r: &Vec<(K, V)>, k: &K) -> (res: Option<usize>)
    ensures
        res matches Some(i) ==> i < r@.len() && r@[i as int].0 == *k,
        res is None ==> forall|i: int| 0 <= i < r@.len() ==> r@[i].0 != *k,
{
    let mut i: usize = 0;
    while i < r.len()
        invariant
            i <= r@.len(),
            forall|j: int| 0 <= j < i ==> r@[j].0 != *k,
        decreases r@.len() - i,
    {
        if r[i].0.key_eq(k) {
            proof {
                K::lemma_rank_injective(r@[i as int].0, *k);
            }
            return Some(i);
        }
        proof {
            if r@[i as int].0 == *k {
            }
        }
        i = i + 1;
    }
    None
}

/// Each key of `rows` once, with the value of its first row, in order of first
/// appearance.
pub fn first_per_key<K: TableKey, V: Copy>(rows: &Vec<(K, V)>) -> (r: Vec<(K, V)>)
    ensures
        firsts_of(r@, rows@),
{
    let mut r: Vec<(K, V)> = Vec::new();
    let mut i: usize = 0;
    while i < rows.len()
        invariant
            i <= rows@.len(),
            firsts_of(r@, rows@.subrange(0, i as int)),
        decreases rows@.len() - i,
    {
        let (k, v) = rows[i];
        let ghost pre = rows@.subrange(0, i as int);
        let ghost old_r = r@;
        proof {
            assert(rows@.subrange(0, i + 1) =~= pre.push((k, v)));
        }
        match find_key(&r, &k) {
            Some(_) => {
                proof {
                    assert forall|a: K| #[trigger] first_value(pre.push((k, v)), a) == first_value(pre, a) by {
                        lemma_first_value_push(pre, (k, v), a);
                    }
                    assert(first_value(pre, k) is Some) by {
                        let j = choose|j: int| 0 <= j < r@.len() && r@[j].0 == k;
                        assert(first_value(pre, r@[j].0) == Some(r@[j].1));
                    }
                    assert forall|j: int| 0 <= j < r@.len() implies first_value(pre.push((k, v)), #[trigger] r@[j].0) == Some(r@[j].1) by {
                        lemma_first_value_push(pre, (k, v), r@[j].0);
                    }
                    assert forall|a: K| #[trigger] first_value(pre.push((k, v)), a) is Some implies exists|j: int| 0 <= j < r@.len() && r@[j].0 == a by {
                        lemma_first_value_push(pre, (k, v), a);
                    }
                }
            },
            None => {
                proof {
                    assert(first_value(pre, k) is None) by {
                        if first_value(pre, k) is Some {
                            let j = choose|j: int| 0 <= j < r@.len() && r@[j].0 == k;
                        }
                    }
                }
                r.push((k, v));
                proof {
                    assert forall|j: int| 0 <= j < r@.len() implies first_value(pre.push((k, v)), #[trigger] r@[j].0) == Some(r@[j].1) by {
                        lemma_first_value_push(pre, (k, v), r@[j].0);
                        if j < old_r.len() {
                            assert(r@[j] == old_r[j]);
                        }
                    }
                    assert forall|a: K| #[trigger] first_value(pre.push((k, v)), a) is Some implies exists|j: int| 0 <= j < r@.len() && r@[j].0 == a by {
                        lemma_first_value_push(pre, (k, v), a);
                        if a == k {
                            assert(r@[old_r.len() as int].0 == a);
                        } else {
                            let j = choose|j: int| 0 <= j < old_r.len() && old_r[j].0 == a;
                            assert(r@[j].0 == a);
                        }
                    }
                }
            },
        }
        i = i + 1;
    }
    proof {
        assert(rows@.subrange(0, i as int) =~= rows@);
    }
    r
}

/// The value that `k` takes after reverting to `targets`: the target value
/// where `k` has one (`None` removes the row), else unchanged.
pub open spec fn reverted<K, V>(targets: Seq<(K, Option<V>)>, before: Option<V>, k: K) -> Option<V> {
    if exists|i: int| 0 <= i < targets.len() && targets[i].0 == k {
        targets[choose|i: int| 0 <= i < targets.len() && targets[i].0 == k].1
    } else {
        before
    }
}

/// Sets each key of `targets` to its target value, removing it for `None`.
pub fn revert_rows<K: TableKey, V: Copy>(table: &mut Table<K, V>, targets: &Vec<(K, Option<V>)>)
    requires
        old(table).wf(),
        distinct_keys(targets@),
    ensures
        final(table).wf(),
        forall|k: K| #[trigger] final(table).lookup(k) == reverted(targets@, old(table).lookup(k), k),
{
    let mut i: usize = 0;
    while i < targets.len()
        invariant
            table.wf(),
            i <= targets@.len(),
            distinct_keys(targets@),
            forall|k: K| #[trigger] table.lookup(k) == reverted(targets@.subrange(0, i as int), old(table).lookup(k), k),
        decreases targets@.len() - i,
    {
        let (k, v) = targets[i];
        let ghost m0 = table.view();
        proof {
            assert forall|a: K| #[trigger] m0.contains_key(a) || !m0.contains_key(a) implies
                (if m0.contains_key(a) { Some(m0[a]) } else { None }) == reverted(targets@.subrange(0, i as int), old(table).lookup(a), a) by {
                assert(table.lookup(a) == reverted(targets@.subrange(0, i as int), old(table).lookup(a), a));
            }
        }
        match v {
            Some(val) => {
                table.put(k, val);
            },
            None => {
                table.remove(&k);
            },
        }
        proof {
            let s0 = targets@.subrange(0, i as int);
            let s1 = targets@.subrange(0, i + 1);
            assert forall|a: K| #[trigger] table.lookup(a) == reverted(s1, old(table).lookup(a), a) by {
                if a == k {
                    assert(s1[i as int].0 == a);
                    let j = choose|j: int| 0 <= j < s1.len() && s1[j].0 == a;
                    assert(j == i);
                } else {
                    assert((if m0.contains_key(a) { Some(m0[a]) } else { None }) == reverted(s0, old(table).lookup(a), a));
                    assert(table.lookup(a) == (if m0.contains_key(a) { Some(m0[a]) } else { None }));
                    if exists|j: int| 0 <= j < s1.len() && s1[j].0 == a {
                        let j = choose|j: int| 0 <= j < s1.len() && s1[j].0 == a;
                        assert(s0[j].0 == a);
                        let j0 = choose|j: int| 0 <= j < s0.len() && s0[j].0 == a;
                        assert(j0 == j);
                    } else {
                        assert(!exists|j: int| 0 <= j < s0.len() && s0[j].0 == a) by {
                            if exists|j: int| 0 <= j < s0.len() && s0[j].0 == a {
                                let j = choose|j: int| 0 <= j < s0.len() && s0[j].0 == a;
                                assert(s1[j].0 == a);
                            }
                        }
                    }
                }
            }
        }
        i = i + 1;
    }
    proof {
        assert(targets@.subrange(0, i as int) =~= targets@);
    }
}

/// `m` after applying `rows` in order: a value is stored, `None` removes the key.
pub open spec fn apply_rows<K, V>(m: Map<K, V>, rows: Seq<(K, Option<V>)>) -> Map<K, V>
    decreases rows.len(),
{
    if rows.len() == 0 {
        m
    } else {
        let prev = apply_rows(m, rows.drop_last());
        match rows.last().1 {
            Some(v) => prev.insert(rows.last().0, v),
            None => prev.remove(rows.last().0),
        }
    }
}

/// Applies `rows` in order: each stores its value, or removes its key for
/// `None`.
pub fn apply_updates<K: TableKey, V: Copy>(table: &mut Table<K, V>, rows: &Vec<(K, Option<V>)>)
    requires
        old(table).wf(),
    ensures
        final(table).wf(),
        final(table).view() == apply_rows(old(table).view(), rows@),
{
    let mut i: usize = 0;
    while i < rows.len()
        invariant
            table.wf(),
            i <= rows@.len(),
            table.view() == apply_rows(old(table).view(), rows@.subrange(0, i as int)),
        decreases rows@.len() - i,
    {
        let (k, v) = rows[i];
        match v {
            Some(val) => {
                table.put(k, val);
            },
            None => {
                table.remove(&k);
            },
        }
        proof {
            assert(rows@.subrange(0, i + 1).drop_last() =~= rows@.subrange(0, i as int));
        }
        i = i + 1;
    }
    proof {
        assert(rows@.subrange(0, i as int) =~= rows@);
    }
}

} // verus!
