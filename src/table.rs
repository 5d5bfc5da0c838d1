//! Ordered key-value tables.
use vstd::prelude::*;

verus! {

/// A key that orders table rows: each key has a distinct integer rank.
pub trait TableKey: Copy + Sized {
    spec fn rank(&self) -> int;

    proof fn lemma_rank_injective(a: Self, b: Self)
        ensures
            a.rank() == b.rank() ==> a == b,
    ;

    fn key_lt(&self, other: &Self) -> (r: bool)
        ensures
            r == (self.rank() < other.rank()),
    ;

    fn key_eq(&self, other: &Self) -> (r: bool)
        ensures
            r == (self.rank() == other.rank()),
    ;
}

impl TableKey for u64 {
    open spec fn rank(&self) -> int {
        *self as int
    }

    proof fn lemma_rank_injective(a: Self, b: Self) {
    }

    fn key_lt(&self, other: &Self) -> (r: bool) {
        *self < *other
    }

    fn key_eq(&self, other: &Self) -> (r: bool) {
        *self == *other
    }
}

/// A row value that can be copied out of a table; `image` is what a copy
/// keeps.
pub trait TableValue: Sized {
    type Image;

    spec fn image(&self) -> Self::Image;

    fn duplicate(&self) -> (r: Self)
        ensures
            r.image() == self.image(),
    ;
}

impl TableValue for u64 {
    type Image = u64;

    open spec fn image(&self) -> u64 {
        *self
    }

    fn duplicate(&self) -> (r: Self) {
        *self
    }
}

/// Two row sequences with the same keys, in order, and values of the same image.
pub open spec fn same_rows<K, V: TableValue>(a: Seq<(K, V)>, b: Seq<(K, V)>) -> bool {
    &&& a.len() == b.len()
    &&& forall|i: int| 0 <= i < a.len() ==> #[trigger] a[i].0 == b[i].0 && a[i].1.image() == b[i].1.image()
}

/// Keys in strictly increasing rank.
pub open spec fn sorted_keys<K: TableKey, V>(s: Seq<(K, V)>) -> bool {
    forall|i: int, j: int| 0 <= i < j < s.len() ==> s[i].0.rank() < s[j].0.rank()
}

/// The map that a sequence of rows with distinct keys stands for.
pub open spec fn rows_map<K: TableKey, V>(s: Seq<(K, V)>) -> Map<K, V> {
    Map::new(
        |k: K| exists|i: int| 0 <= i < s.len() && s[i].0 == k,
        |k: K| s[choose|i: int| 0 <= i < s.len() && s[i].0 == k].1,
    )
}

/// Whether a row's key lies between two ranks, both included.
pub open spec fn in_rank_range<K: TableKey, V>(e: (K, V), lo: int, hi: int) -> bool {
    lo <= e.0.rank() && e.0.rank() <= hi
}

/// A table: rows kept sorted by key rank, one row per key.
pub struct Table<K, V> {
    rows: Vec<(K, V)>,
}

impl<K: TableKey, V> Table<K, V> {
    pub closed spec fn rows(&self) -> Seq<(K, V)> {
        self.rows@
    }

    pub open spec fn wf(&self) -> bool {
        sorted_keys(self.rows())
    }

    pub open spec fn view(&self) -> Map<K, V> {
        rows_map(self.rows())
    }

    pub open spec fn lookup(&self, k: K) -> Option<V> {
        if self.view().contains_key(k) {
            Some(self.view()[k])
        } else {
            None
        }
    }

    /// The rows whose key rank lies in `[lo, hi]`, in key order.
    pub open spec fn rows_between(&self, lo: int, hi: int) -> Seq<(K, V)> {
        self.rows().filter(|e: (K, V)| in_rank_range(e, lo, hi))
    }

    /// The rows whose key rank lies outside `[lo, hi]`, in key order.
    pub open spec fn rows_outside(&self, lo: int, hi: int) -> Seq<(K, V)> {
        self.rows().filter(|e: (K, V)| !in_rank_range(e, lo, hi))
    }

    pub proof fn lemma_view_at(&self, i: int)
        requires
            self.wf(),
            0 <= i < self.rows().len(),
        ensures
            self.view().contains_key(self.rows()[i].0),
            self.view()[self.rows()[i].0] == self.rows()[i].1,
    {
        lemma_rows_map_at(self.rows(), i);
    }

    /// Each row in a key range is the table's row for its key.
    pub proof fn lemma_between_lookup(&self, lo: int, hi: int, i: int)
        requires
            self.wf(),
            0 <= i < self.rows_between(lo, hi).len(),
        ensures
            self.lookup(self.rows_between(lo, hi)[i].0) == Some(self.rows_between(lo, hi)[i].1),
    {
        let e = self.rows_between(lo, hi)[i];
        lemma_filter_member(self.rows(), |e: (K, V)| in_rank_range(e, lo, hi), i);
        let k = choose|k: int| 0 <= k < self.rows().len() && self.rows()[k] == e;
        self.lemma_view_at(k);
    }

    pub fn new() -> (r: Self)
        ensures
            r.wf(),
            r.rows().len() == 0,
            r.view() == Map::<K, V>::empty(),
    {
        let r = Table { rows: Vec::new() };
        assert(r.view() =~= Map::<K, V>::empty());
        r
    }

    pub fn len(&self) -> (r: usize)
        ensures
            r == self.rows().len(),
    {
        self.rows.len()
    }

    /// Index of the first row whose key rank is at least that of `k`.
    fn position(&self, k: &K) -> (r: usize)
        requires
            self.wf(),
        ensures
            r <= self.rows().len(),
            forall|i: int| 0 <= i < r ==> self.rows()[i].0.rank() < k.rank(),
            forall|i: int| r <= i < self.rows().len() ==> self.rows()[i].0.rank() >= k.rank(),
    {
        let mut i: usize = 0;
        while i < self.rows.len()
            invariant
                self.wf(),
                i <= self.rows().len(),
                forall|j: int| 0 <= j < i ==> self.rows()[j].0.rank() < k.rank(),
            decreases self.rows().len() - i,
        {
            if !self.rows[i].0.key_lt(k) {
                return i;
            }
            i = i + 1;
        }
        i
    }

    /// The row stored under `k`, if any.
    pub fn get(&self, k: &K) -> (r: Option<&V>)
        requires
            self.wf(),
        ensures
            r matches Some(v) ==> self.lookup(*k) == Some(*v),
            r is None ==> self.lookup(*k) is None,
    {
        let p = self.position(k);
        if p < self.rows.len() && self.rows[p].0.key_eq(k) {
            proof {
                K::lemma_rank_injective(self.rows()[p as int].0, *k);
                self.lemma_view_at(p as int);
            }
            Some(&self.rows[p].1)
        } else {
            proof {
                lemma_rows_map_absent(self.rows(), *k);
            }
            None
        }
    }

    pub fn contains(&self, k: &K) -> (r: bool)
        requires
            self.wf(),
        ensures
            r == self.view().contains_key(*k),
    {
        self.get(k).is_some()
    }

    /// Inserts or replaces the row under `k`.
    pub fn put(&mut self, k: K, v: V)
        requires
            old(self).wf(),
        ensures
            final(self).wf(),
            final(self).view() == old(self).view().insert(k, v),
    {
        let p = self.position(&k);
        let ghost old_rows = self.rows();
        if p < self.rows.len() && self.rows[p].0.key_eq(&k) {
            proof {
                K::lemma_rank_injective(self.rows()[p as int].0, k);
            }
            self.rows.set(p, (k, v));
            proof {
                assert(self.rows() == old_rows.update(p as int, (k, v)));
                lemma_rows_map_update(old_rows, p as int, k, v);
            }
        } else {
            self.rows.insert(p, (k, v));
            proof {
                lemma_rows_map_insert(old_rows, p as int, k, v);
            }
        }
    }

    /// Removes the row under `k`, returning its value.
    pub fn remove(&mut self, k: &K) -> (r: Option<V>)
        requires
            old(self).wf(),
        ensures
            final(self).wf(),
            final(self).view() == old(self).view().remove(*k),
            r == old(self).lookup(*k),
            r is Some ==> final(self).rows().len() == old(self).rows().len() - 1,
            r is None ==> final(self).rows() == old(self).rows(),
    {
        let p = self.position(k);
        let ghost old_rows = self.rows();
        if p < self.rows.len() && self.rows[p].0.key_eq(k) {
            proof {
                K::lemma_rank_injective(self.rows()[p as int].0, *k);
                self.lemma_view_at(p as int);
            }
            let (_, v) = self.rows.remove(p);
            proof {
                lemma_rows_map_remove(old_rows, p as int);
            }
            Some(v)
        } else {
            proof {
                lemma_rows_map_absent(self.rows(), *k);
                assert(self.view() =~= rows_map(old_rows).remove(*k));
            }
            None
        }
    }

    /// The row with the highest key, if any.
    pub fn last(&self) -> (r: Option<(K, &V)>)
        requires
            self.wf(),
        ensures
            r is None <==> self.view().dom().len() == 0 && self.rows().len() == 0,
            r matches Some((k, v)) ==> self.lookup(k) == Some(*v) && (k, *v) == self.rows().last() && forall|a: K|
                #[trigger] self.view().contains_key(a) ==> a.rank() <= k.rank(),
    {
        let n = self.rows.len();
        if n == 0 {
            proof {
                assert(self.view().dom() =~= Set::<K>::empty());
            }
            None
        } else {
            proof {
                self.lemma_view_at(n - 1);
                assert forall|a: K| #[trigger] self.view().contains_key(a) implies a.rank()
                    <= self.rows()[n - 1].0.rank() by {
                    let j = choose|j: int| 0 <= j < self.rows().len() && self.rows()[j].0 == a;
                }
            }
            Some((self.rows[n - 1].0, &self.rows[n - 1].1))
        }
    }

    /// The first row whose key rank is at least that of `k`, if any.
    pub fn seek(&self, k: &K) -> (r: Option<(K, &V)>)
        requires
            self.wf(),
        ensures
            r is None ==> forall|a: K| #[trigger] self.view().contains_key(a) ==> a.rank() < k.rank(),
            r matches Some((a, v)) ==> {
                &&& self.lookup(a) == Some(*v)
                &&& a.rank() >= k.rank()
                &&& forall|b: K|
                    #[trigger] self.view().contains_key(b) && b.rank() >= k.rank() ==> a.rank()
                        <= b.rank()
            },
    {
        let p = self.position(k);
        if p < self.rows.len() {
            proof {
                self.lemma_view_at(p as int);
                assert forall|b: K| #[trigger]
                    self.view().contains_key(b) && b.rank() >= k.rank() implies self.rows()[p as int].0.rank()
                    <= b.rank() by {
                    let j = choose|j: int| 0 <= j < self.rows().len() && self.rows()[j].0 == b;
                    if j < p {
                    } else if j > p {
                    }
                }
            }
            Some((self.rows[p].0, &self.rows[p].1))
        } else {
            proof {
                assert forall|a: K| #[trigger] self.view().contains_key(a) implies a.rank() < k.rank() by {
                    let j = choose|j: int| 0 <= j < self.rows().len() && self.rows()[j].0 == a;
                }
            }
            None
        }
    }

    /// The index just past the last row whose key rank is at most that of `hi`,
    /// searching from `from`.
    fn end_of_range(&self, from: usize, hi: &K) -> (r: usize)
        requires
            self.wf(),
            from <= self.rows().len(),
        ensures
            from <= r <= self.rows().len(),
            forall|i: int| from <= i < r ==> self.rows()[i].0.rank() <= hi.rank(),
            forall|i: int| r <= i < self.rows().len() ==> self.rows()[i].0.rank() > hi.rank(),
    {
        let mut i: usize = from;
        while i < self.rows.len()
            invariant
                self.wf(),
                from <= i <= self.rows().len(),
                forall|j: int| from <= j < i ==> self.rows()[j].0.rank() <= hi.rank(),
            decreases self.rows().len() - i,
        {
            if hi.key_lt(&self.rows[i].0) {
                return i;
            }
            i = i + 1;
        }
        i
    }

    /// Removes and returns the rows whose key lies between `lo` and `hi`, both
    /// included, in key order.
    pub fn take_between(&mut self, lo: &K, hi: &K) -> (r: Vec<(K, V)>)
        requires
            old(self).wf(),
        ensures
            final(self).wf(),
            r@ == old(self).rows_between(lo.rank(), hi.rank()),
            final(self).rows() == old(self).rows_outside(lo.rank(), hi.rank()),
            forall|k: K| #[trigger] final(self).lookup(k) == if lo.rank() <= k.rank() <= hi.rank() {
                None
            } else {
                old(self).lookup(k)
            },
    {
        let ghost s = self.rows();
        let a = self.position(lo);
        let b = self.end_of_range(a, hi);
        let mut tail = self.rows.split_off(b);
        let mid = self.rows.split_off(a);
        self.rows.append(&mut tail);
        proof {
            lemma_segment_filters(s, a as int, b as int, lo.rank(), hi.rank());
            assert(self.rows() =~= s.subrange(0, a as int) + s.subrange(b as int, s.len() as int));
            assert(mid@ =~= s.subrange(a as int, b as int));
            assert forall|i: int, j: int| 0 <= i < j < self.rows().len() implies
                self.rows()[i].0.rank() < self.rows()[j].0.rank() by {
                if j < a {
                } else if i >= a {
                    assert(self.rows()[i] == s[i + (b - a)]);
                    assert(self.rows()[j] == s[j + (b - a)]);
                } else {
                    assert(self.rows()[j] == s[j + (b - a)]);
                }
            }
            let t = self.rows();
            assert forall|k: K| #[trigger] self.lookup(k) == (if lo.rank() <= k.rank() <= hi.rank() {
                None
            } else {
                old(self).lookup(k)
            }) by {
                if rows_map(t).contains_key(k) {
                    let j = choose|j: int| 0 <= j < t.len() && t[j].0 == k;
                    lemma_rows_map_at(t, j);
                    if j < a {
                        assert(t[j] == s[j]);
                        lemma_rows_map_at(s, j);
                    } else {
                        assert(t[j] == s[j + (b - a)]);
                        lemma_rows_map_at(s, j + (b - a));
                    }
                } else {
                    if !(lo.rank() <= k.rank() <= hi.rank()) && rows_map(s).contains_key(k) {
                        let j = choose|j: int| 0 <= j < s.len() && s[j].0 == k;
                        if j < a {
                            assert(t[j] == s[j]);
                        } else {
                            assert(j >= b);
                            assert(t[j - (b - a)] == s[j]);
                        }
                    }
                }
            }
        }
        mid
    }

    /// Removes and returns the first `max` rows (all of them, if fewer)
    /// whose key lies between `lo` and `hi`, in key order.
    pub fn take_first_between(&mut self, lo: &K, hi: &K, max: usize) -> (r: Vec<(K, V)>)
        requires
            old(self).wf(),
        ensures
            final(self).wf(),
            r@.len() == if max < old(self).rows_between(lo.rank(), hi.rank()).len() { max as int } else { old(self).rows_between(lo.rank(), hi.rank()).len() as int },
            r@ == old(self).rows_between(lo.rank(), hi.rank()).subrange(0, r@.len() as int),
            final(self).rows_between(lo.rank(), hi.rank()) == old(self).rows_between(lo.rank(), hi.rank()).subrange(
                r@.len() as int,
                old(self).rows_between(lo.rank(), hi.rank()).len() as int,
            ),
            final(self).rows_outside(lo.rank(), hi.rank()) == old(self).rows_outside(lo.rank(), hi.rank()),
    {
        let ghost s = self.rows();
        let a = self.position(lo);
        let b = self.end_of_range(a, hi);
        let m: usize = if max < b - a { max } else { b - a };
        let mut tail = self.rows.split_off(a + m);
        let mid = self.rows.split_off(a);
        self.rows.append(&mut tail);
        proof {
            assert(self.rows() =~= s.subrange(0, a as int) + s.subrange(a + m, s.len() as int));
            assert(mid@ =~= s.subrange(a as int, a + m));
            lemma_prefix_taken(s, self.rows(), a as int, b as int, m as int, lo.rank(), hi.rank());
        }
        mid
    }

}

impl<K: TableKey, V: TableValue> Table<K, V> {
    /// Copies of the rows whose key lies between `lo` and `hi`, both included,
    /// in key order.
    pub fn between(&self, lo: &K, hi: &K) -> (r: Vec<(K, V)>)
        requires
            self.wf(),
        ensures
            same_rows(r@, self.rows_between(lo.rank(), hi.rank())),
    {
        let ghost s = self.rows();
        let a = self.position(lo);
        let b = self.end_of_range(a, hi);
        let mut out: Vec<(K, V)> = Vec::new();
        let mut i: usize = a;
        while i < b
            invariant
                a <= i <= b <= s.len(),
                s == self.rows(),
                same_rows(out@, s.subrange(a as int, i as int)),
            decreases b - i,
        {
            let k = self.rows[i].0;
            let v = self.rows[i].1.duplicate();
            let ghost prev = out@;
            out.push((k, v));
            proof {
                lemma_same_rows_push(prev, s.subrange(a as int, i as int), (k, v), s[i as int]);
                assert(s.subrange(a as int, i as int).push(s[i as int]) =~= s.subrange(a as int, i + 1));
            }
            i = i + 1;
        }
        proof {
            lemma_segment_filters(s, a as int, b as int, lo.rank(), hi.rank());
        }
        out
    }

    /// A copy of every row, in key order.
    pub fn all_rows(&self) -> (r: Vec<(K, V)>)
        ensures
            same_rows(r@, self.rows()),
    {
        let mut out: Vec<(K, V)> = Vec::new();
        let mut i: usize = 0;
        while i < self.rows.len()
            invariant
                i <= self.rows().len(),
                same_rows(out@, self.rows().subrange(0, i as int)),
            decreases self.rows().len() - i,
        {
            let k = self.rows[i].0;
            let v = self.rows[i].1.duplicate();
            let ghost prev = out@;
            out.push((k, v));
            proof {
                lemma_same_rows_push(prev, self.rows().subrange(0, i as int), (k, v), self.rows()[i as int]);
                assert(self.rows().subrange(0, i as int).push(self.rows()[i as int]) =~= self.rows().subrange(0, i + 1));
            }
            i = i + 1;
        }
        proof {
            assert(self.rows().subrange(0, i as int) =~= self.rows());
        }
        out
    }
}

proof fn lemma_rows_map_remove<K: TableKey, V>(s: Seq<(K, V)>, p: int)
    requires
        sorted_keys(s),
        0 <= p < s.len(),
    ensures
        sorted_keys(s.remove(p)),
        rows_map(s.remove(p)) == rows_map(s).remove(s[p].0),
{
    let t = s.remove(p);
    let k = s[p].0;
    assert forall|i: int, j: int| 0 <= i < j < t.len() implies t[i].0.rank() < t[j].0.rank() by {
        if j < p {
        } else if i < p {
            assert(t[j] == s[j + 1]);
        } else {
            assert(t[i] == s[i + 1] && t[j] == s[j + 1]);
        }
    }
    assert forall|a: K| #[trigger] rows_map(t).contains_key(a) == rows_map(s).remove(k).contains_key(a) by {
        if rows_map(t).contains_key(a) {
            let j = choose|j: int| 0 <= j < t.len() && t[j].0 == a;
            if j < p {
                assert(s[j].0 == a);
                assert(s[j].0.rank() < s[p].0.rank());
            } else {
                assert(s[j + 1].0 == a);
                assert(s[p].0.rank() < s[j + 1].0.rank());
            }
        }
        if rows_map(s).contains_key(a) && a != k {
            let j = choose|j: int| 0 <= j < s.len() && s[j].0 == a;
            if j < p {
                assert(t[j].0 == a);
            } else {
                assert(t[j - 1].0 == a);
            }
        }
    }
    assert forall|a: K| #[trigger] rows_map(t).contains_key(a) implies rows_map(t)[a] == rows_map(s).remove(k)[a] by {
        let j = choose|j: int| 0 <= j < t.len() && t[j].0 == a;
        lemma_rows_map_at(t, j);
        if j < p {
            lemma_rows_map_at(s, j);
        } else {
            lemma_rows_map_at(s, j + 1);
        }
    }
    assert(rows_map(t) =~= rows_map(s).remove(k));
}

pub proof fn lemma_same_rows_push<K, V: TableValue>(a: Seq<(K, V)>, b: Seq<(K, V)>, x: (K, V), y: (K, V))
    requires
        same_rows(a, b),
        x.0 == y.0,
        x.1.image() == y.1.image(),
    ensures
        same_rows(a.push(x), b.push(y)),
{
    assert forall|i: int| 0 <= i < a.len() + 1 implies #[trigger] a.push(x)[i].0 == b.push(y)[i].0
        && a.push(x)[i].1.image() == b.push(y)[i].1.image() by {
        if i < a.len() {
            assert(a.push(x)[i] == a[i] && b.push(y)[i] == b[i]);
        }
    }
}

/// Every element of a filtered sequence is an element of the sequence it came from.
pub proof fn lemma_filter_member<A>(s: Seq<A>, p: spec_fn(A) -> bool, i: int)
    requires
        0 <= i < s.filter(p).len(),
    ensures
        exists|k: int| 0 <= k < s.len() && s[k] == s.filter(p)[i],
    decreases s.len(),
{
    reveal(Seq::filter);
    if s.len() > 0 {
        let sub = s.drop_last().filter(p);
        if i < sub.len() {
            lemma_filter_member(s.drop_last(), p, i);
            let k = choose|k: int| 0 <= k < s.drop_last().len() && s.drop_last()[k] == sub[i];
            assert(s[k] == s.filter(p)[i]);
        } else {
            assert(s[s.len() - 1] == s.filter(p)[i]);
        }
    }
}

pub proof fn lemma_filter_all<A>(s: Seq<A>, p: spec_fn(A) -> bool)
    requires
        forall|i: int| 0 <= i < s.len() ==> p(s[i]),
    ensures
        s.filter(p) == s,
    decreases s.len(),
{
    reveal(Seq::filter);
    if s.len() > 0 {
        lemma_filter_all(s.drop_last(), p);
        assert(s.drop_last().push(s.last()) =~= s);
    }
}

pub proof fn lemma_filter_none<A>(s: Seq<A>, p: spec_fn(A) -> bool)
    requires
        forall|i: int| 0 <= i < s.len() ==> !p(s[i]),
    ensures
        s.filter(p) == Seq::<A>::empty(),
    decreases s.len(),
{
    reveal(Seq::filter);
    if s.len() > 0 {
        lemma_filter_none(s.drop_last(), p);
    } else {
        assert(s =~= Seq::<A>::empty());
    }
}

/// Removing the first `m` rows of the contiguous in-range segment
/// `[a, b)` of sorted rows keeps the order, drops those rows from the range
/// and leaves the rows outside it.
proof fn lemma_prefix_taken<K: TableKey, V>(s: Seq<(K, V)>, t: Seq<(K, V)>, a: int, b: int, m: int, lo: int, hi: int)
    requires
        sorted_keys(s),
        0 <= a <= b <= s.len(),
        0 <= m <= b - a,
        forall|i: int| 0 <= i < a ==> s[i].0.rank() < lo,
        forall|i: int| a <= i < b ==> lo <= #[trigger] s[i].0.rank() <= hi,
        forall|i: int| b <= i < s.len() ==> s[i].0.rank() > hi,
        t == s.subrange(0, a) + s.subrange(a + m, s.len() as int),
    ensures
        sorted_keys(t),
        s.filter(|e: (K, V)| in_rank_range(e, lo, hi)) == s.subrange(a, b),
        t.filter(|e: (K, V)| in_rank_range(e, lo, hi)) == s.subrange(a, b).subrange(m, b - a),
        t.filter(|e: (K, V)| !in_rank_range(e, lo, hi)) == s.filter(|e: (K, V)| !in_rank_range(e, lo, hi)),
{
    lemma_segment_filters(s, a, b, lo, hi);
    assert forall|i: int| a <= i < t.len() implies t[i] == s[i + m] by {}
    assert forall|i: int| 0 <= i < a implies t[i] == s[i] by {}
    assert forall|i: int, j: int| 0 <= i < j < t.len() implies t[i].0.rank() < t[j].0.rank() by {
        if j < a {
        } else if i >= a {
            assert(t[i] == s[i + m] && t[j] == s[j + m]);
        } else {
            assert(t[j] == s[j + m]);
        }
    }
    assert forall|i: int| a <= i < b - m implies lo <= #[trigger] t[i].0.rank() <= hi by {
        assert(t[i] == s[i + m]);
    }
    assert forall|i: int| b - m <= i < t.len() implies t[i].0.rank() > hi by {
        assert(t[i] == s[i + m]);
    }
    lemma_segment_filters(t, a, b - m, lo, hi);
    assert(t.subrange(a, b - m) =~= s.subrange(a, b).subrange(m, b - a));
    assert(t.subrange(0, a) + t.subrange(b - m, t.len() as int) =~= s.subrange(0, a) + s.subrange(b, s.len() as int));
}

/// On sorted rows, the rows in a rank range form one contiguous segment.
proof fn lemma_segment_filters<K: TableKey, V>(s: Seq<(K, V)>, a: int, b: int, lo: int, hi: int)
    requires
        0 <= a <= b <= s.len(),
        forall|i: int| 0 <= i < a ==> s[i].0.rank() < lo,
        forall|i: int| a <= i < b ==> lo <= #[trigger] s[i].0.rank() <= hi,
        forall|i: int| b <= i < s.len() ==> s[i].0.rank() > hi,
    ensures
        s.filter(|e: (K, V)| in_rank_range(e, lo, hi)) == s.subrange(a, b),
        s.filter(|e: (K, V)| !in_rank_range(e, lo, hi)) == s.subrange(0, a) + s.subrange(b, s.len() as int),
{
    let p = |e: (K, V)| in_rank_range(e, lo, hi);
    let q = |e: (K, V)| !in_rank_range(e, lo, hi);
    let x = s.subrange(0, a);
    let y = s.subrange(a, b);
    let z = s.subrange(b, s.len() as int);
    assert(s =~= x + y + z);
    Seq::filter_distributes_over_add(x + y, z, p);
    Seq::filter_distributes_over_add(x, y, p);
    Seq::filter_distributes_over_add(x + y, z, q);
    Seq::filter_distributes_over_add(x, y, q);
    lemma_filter_none(x, p);
    lemma_filter_all(y, p);
    lemma_filter_none(z, p);
    lemma_filter_all(x, q);
    lemma_filter_none(y, q);
    lemma_filter_all(z, q);
    assert(Seq::<(K, V)>::empty() + y + Seq::<(K, V)>::empty() =~= y);
    assert(x + Seq::<(K, V)>::empty() + z =~= x + z);
}


proof fn lemma_rows_map_at<K: TableKey, V>(s: Seq<(K, V)>, i: int)
    requires
        sorted_keys(s),
        0 <= i < s.len(),
    ensures
        rows_map(s).contains_key(s[i].0),
        rows_map(s)[s[i].0] == s[i].1,
{
    let k = s[i].0;
    assert(exists|j: int| 0 <= j < s.len() && s[j].0 == k);
    let j = choose|j: int| 0 <= j < s.len() && s[j].0 == k;
    if j != i {
        if j < i {
            assert(s[j].0.rank() < s[i].0.rank());
        } else {
            assert(s[i].0.rank() < s[j].0.rank());
        }
    }
}

proof fn lemma_rows_map_absent<K: TableKey, V>(s: Seq<(K, V)>, k: K)
    requires
        forall|i: int| 0 <= i < s.len() ==> s[i].0 != k,
    ensures
        !rows_map(s).contains_key(k),
{
}

proof fn lemma_rows_dom_update<K: TableKey, V>(s: Seq<(K, V)>, p: int, k: K, v: V, a: K)
    requires
        0 <= p < s.len(),
        s[p].0 == k,
    ensures
        rows_map(s.update(p, (k, v))).contains_key(a) == rows_map(s).insert(k, v).contains_key(a),
{
    let t = s.update(p, (k, v));
    if rows_map(s).contains_key(a) {
        let j = choose|j: int| 0 <= j < s.len() && s[j].0 == a;
        assert(t[j].0 == a);
    }
    if rows_map(t).contains_key(a) {
        let j = choose|j: int| 0 <= j < t.len() && t[j].0 == a;
        assert(s[j].0 == a);
    }
}

proof fn lemma_rows_map_update<K: TableKey, V>(s: Seq<(K, V)>, p: int, k: K, v: V)
    requires
        sorted_keys(s),
        0 <= p < s.len(),
        s[p].0 == k,
    ensures
        sorted_keys(s.update(p, (k, v))),
        rows_map(s.update(p, (k, v))) == rows_map(s).insert(k, v),
{
    let t = s.update(p, (k, v));
    assert forall|a: K| #[trigger] rows_map(t).contains_key(a) == rows_map(s).insert(k, v).contains_key(a) by {
        lemma_rows_dom_update(s, p, k, v, a);
    }
    assert forall|a: K| #[trigger] rows_map(t).contains_key(a) implies rows_map(t)[a] == rows_map(s).insert(k, v)[a] by {
        let j = choose|j: int| 0 <= j < t.len() && t[j].0 == a;
        lemma_rows_map_at(t, j);
        if a != k {
            lemma_rows_map_at(s, j);
        }
    }
    assert(rows_map(t) =~= rows_map(s).insert(k, v));
}

proof fn lemma_rows_map_insert<K: TableKey, V>(s: Seq<(K, V)>, p: int, k: K, v: V)
    requires
        sorted_keys(s),
        0 <= p <= s.len(),
        forall|i: int| 0 <= i < p ==> s[i].0.rank() < k.rank(),
        forall|i: int| p <= i < s.len() ==> s[i].0.rank() > k.rank(),
    ensures
        sorted_keys(s.insert(p, (k, v))),
        rows_map(s.insert(p, (k, v))) == rows_map(s).insert(k, v),
{
    let t = s.insert(p, (k, v));
    assert forall|i: int, j: int| 0 <= i < j < t.len() implies t[i].0.rank() < t[j].0.rank() by {
        if j < p {
        } else if j == p {
        } else if i < p {
        } else if i == p {
        } else {
            assert(t[i] == s[i - 1] && t[j] == s[j - 1]);
        }
    }
    assert forall|a: K| #[trigger] rows_map(t).contains_key(a) == rows_map(s).insert(k, v).contains_key(a) by {
        if rows_map(s).contains_key(a) {
            let j = choose|j: int| 0 <= j < s.len() && s[j].0 == a;
            if j < p {
                assert(t[j].0 == a);
            } else {
                assert(t[j + 1].0 == a);
            }
        }
        if a == k {
            assert(t[p].0 == a);
        }
        if rows_map(t).contains_key(a) {
            let j = choose|j: int| 0 <= j < t.len() && t[j].0 == a;
            if j < p {
                assert(s[j].0 == a);
            } else if j > p {
                assert(s[j - 1].0 == a);
            }
        }
    }
    assert forall|a: K| #[trigger] rows_map(t).contains_key(a) implies rows_map(t)[a] == rows_map(s).insert(k, v)[a] by {
        let j = choose|j: int| 0 <= j < t.len() && t[j].0 == a;
        lemma_rows_map_at(t, j);
        if j < p {
            lemma_rows_map_at(s, j);
        } else if j > p {
            lemma_rows_map_at(s, j - 1);
        }
    }
    assert(rows_map(t) =~= rows_map(s).insert(k, v));
}

} // verus!
