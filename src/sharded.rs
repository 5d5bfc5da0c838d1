//! Sharded history indices: a key's sorted list of change blocks, split into
//! shards of bounded size.
use vstd::prelude::*;

verus! {

/// The most block numbers that one shard holds.
pub const NUM_OF_INDICES_IN_SHARD: usize = 2000;

/// One shard of a key's history: block numbers in ascending order, stored under
/// the highest of them, or under `u64::MAX` for the key's open (last) shard.
pub struct Shard {
    pub highest_block_number: u64,
    pub list: Vec<u64>,
}

impl View for Shard {
    type V = (u64, Seq<u64>);

    open spec fn view(&self) -> (u64, Seq<u64>) {
        (self.highest_block_number, self.list@)
    }
}

pub open spec fn shards_view(v: Seq<Shard>) -> Seq<(u64, Seq<u64>)> {
    v.map_values(|s: Shard| s@)
}

/// The block numbers of all shards, in shard order.
pub open spec fn flatten_shards(s: Seq<(u64, Seq<u64>)>) -> Seq<u64>
    decreases s.len(),
{
    if s.len() == 0 {
        Seq::empty()
    } else {
        flatten_shards(s.drop_last()) + s.last().1
    }
}

pub open spec fn strictly_ascending(x: Seq<u64>) -> bool {
    forall|i: int, j: int| 0 <= i < j < x.len() ==> x[i] < x[j]
}

/// Every shard but the last is full and stored under its highest entry; the
/// last is the open shard, non-empty and at most full.
pub open spec fn shards_shape(s: Seq<(u64, Seq<u64>)>) -> bool {
    &&& forall|i: int|
        0 <= i < s.len() - 1 ==> #[trigger] s[i].1.len() == NUM_OF_INDICES_IN_SHARD && s[i].0
            == s[i].1.last()
    &&& s.len() > 0 ==> s.last().0 == u64::MAX && 0 < s.last().1.len() <= NUM_OF_INDICES_IN_SHARD
}

/// The shards of one key, well formed: shaped as above, with the block numbers
/// strictly ascending across them.
pub open spec fn shards_wf(s: Seq<(u64, Seq<u64>)>) -> bool {
    shards_shape(s) && strictly_ascending(flatten_shards(s))
}

pub proof fn lemma_flatten_push(s: Seq<(u64, Seq<u64>)>, x: (u64, Seq<u64>))
    ensures
        flatten_shards(s.push(x)) == flatten_shards(s) + x.1,
{
    assert(s.push(x).drop_last() =~= s);
}

pub proof fn lemma_flatten_append(s: Seq<(u64, Seq<u64>)>, t: Seq<(u64, Seq<u64>)>)
    ensures
        flatten_shards(s + t) == flatten_shards(s) + flatten_shards(t),
    decreases t.len(),
{
    if t.len() == 0 {
        assert(s + t =~= s);
        assert(flatten_shards(s) + flatten_shards(t) =~= flatten_shards(s));
    } else {
        lemma_flatten_append(s, t.drop_last());
        assert((s + t).drop_last() =~= s + t.drop_last());
        assert(flatten_shards(s) + flatten_shards(t.drop_last()) + t.last().1 =~= flatten_shards(s)
            + (flatten_shards(t.drop_last()) + t.last().1));
    }
}

/// Splits `indices` into shards of `NUM_OF_INDICES_IN_SHARD` entries: every
/// shard but the last is full and stored under its highest entry, the last is
/// stored under `u64::MAX`.
pub fn chunk_into_shards(indices: &Vec<u64>) -> (r: Vec<Shard>)
    ensures
        flatten_shards(shards_view(r@)) == indices@,
        shards_shape(shards_view(r@)),
        indices@.len() == 0 <==> r@.len() == 0,
{
    let n = indices.len();
    let mut out: Vec<Shard> = Vec::new();
    let mut i: usize = 0;
    while i < n
        invariant
            n == indices@.len(),
            i <= n,
            i == 0 || i < n,
            flatten_shards(shards_view(out@)) == indices@.subrange(0, i as int),
            out@.len() == 0 <==> i == 0,
            forall|j: int|
                0 <= j < out@.len() ==> (#[trigger] out@[j]).list@.len() == NUM_OF_INDICES_IN_SHARD
                    && out@[j].highest_block_number == out@[j].list@.last(),
        decreases n - i,
    {
        let end: usize = if n - i > NUM_OF_INDICES_IN_SHARD {
            i + NUM_OF_INDICES_IN_SHARD
        } else {
            n
        };
        let mut list: Vec<u64> = Vec::new();
        let mut k: usize = i;
        while k < end
            invariant
                i <= k <= end <= n,
                n == indices@.len(),
                list@ == indices@.subrange(i as int, k as int),
            decreases end - k,
        {
            list.push(indices[k]);
            proof {
                assert(list@ =~= indices@.subrange(i as int, k + 1));
            }
            k = k + 1;
        }
        let highest = if end < n {
            indices[end - 1]
        } else {
            u64::MAX
        };
        let ghost before = out@;
        out.push(Shard { highest_block_number: highest, list });
        proof {
            assert(shards_view(out@) =~= shards_view(before).push(out@.last()@));
            lemma_flatten_push(shards_view(before), out@.last()@);
            assert(indices@.subrange(0, i as int) + indices@.subrange(i as int, end as int)
                =~= indices@.subrange(0, end as int));
        }
        if end == n {
            proof {
                assert(indices@.subrange(0, n as int) =~= indices@);
                let v = shards_view(out@);
                assert forall|j: int| 0 <= j < v.len() - 1 implies #[trigger] v[j].1.len()
                    == NUM_OF_INDICES_IN_SHARD && v[j].0 == v[j].1.last() by {
                    assert(v[j] == out@[j]@);
                }
            }
            return out;
        }
        i = end;
    }
    proof {
        assert(indices@.subrange(0, 0) =~= indices@);
        assert(shards_view(out@) =~= Seq::<(u64, Seq<u64>)>::empty());
    }
    out
}

fn copy_list(v: &Vec<u64>) -> (r: Vec<u64>)
    ensures
        r@ == v@,
{
    let mut r: Vec<u64> = Vec::new();
    let mut i: usize = 0;
    while i < v.len()
        invariant
            i <= v@.len(),
            r@ == v@.subrange(0, i as int),
        decreases v@.len() - i,
    {
        r.push(v[i]);
        proof {
            assert(r@ =~= v@.subrange(0, i + 1));
        }
        i = i + 1;
    }
    proof {
        assert(r@ =~= v@);
    }
    r
}

/// Appends new change blocks to a key's shards: the open shard is taken out,
/// the new blocks are added after its entries, and the result is split into
/// shards again.
pub fn append_history_index(shards: &mut Vec<Shard>, indices: &Vec<u64>)
    ensures
        flatten_shards(shards_view(final(shards)@)) == flatten_shards(shards_view(old(shards)@))
            + indices@,
        shards_wf(shards_view(old(shards)@)) && strictly_ascending(
            flatten_shards(shards_view(old(shards)@)) + indices@,
        ) ==> shards_wf(shards_view(final(shards)@)),
{
    let ghost s0 = shards_view(shards@);
    let n = shards.len();
    let mut merged: Vec<u64> = Vec::new();
    if n > 0 && shards[n - 1].highest_block_number == u64::MAX {
        let ghost orig = shards@;
        let open = shards.pop().unwrap();
        proof {
            assert(shards_view(shards@) =~= s0.drop_last());
            assert(s0[n - 1] == orig[n - 1]@);
            assert(open.list@ == s0.last().1);
        }
        merged = open.list;
    } else {
        proof {
            assert(merged@ =~= Seq::<u64>::empty());
        }
    }
    let ghost kept = shards_view(shards@);
    let ghost open_list = merged@;
    proof {
        if kept != s0 {
            assert(flatten_shards(s0) == flatten_shards(kept) + open_list);
        } else {
            assert(flatten_shards(kept) + open_list =~= flatten_shards(s0));
        }
    }
    let mut i: usize = 0;
    while i < indices.len()
        invariant
            i <= indices@.len(),
            merged@ == open_list + indices@.subrange(0, i as int),
        decreases indices@.len() - i,
    {
        merged.push(indices[i]);
        proof {
            assert(merged@ =~= open_list + indices@.subrange(0, i + 1));
        }
        i = i + 1;
    }
    proof {
        assert(indices@.subrange(0, indices@.len() as int) =~= indices@);
    }
    let mut chunks = chunk_into_shards(&merged);
    let ghost c = shards_view(chunks@);
    shards.append(&mut chunks);
    proof {
        assert(shards_view(shards@) =~= kept + c);
        lemma_flatten_append(kept, c);
        assert(flatten_shards(kept) + (open_list + indices@) =~= flatten_shards(kept) + open_list
            + indices@);
        if shards_wf(s0) && strictly_ascending(flatten_shards(s0) + indices@) {
            let f = shards_view(shards@);
            assert(c.len() > 0 || f.len() == 0) by {
                if c.len() == 0 {
                    if kept == s0 {
                        assert(s0.len() == 0);
                    } else {
                        assert(open_list == s0.last().1);
                        assert(merged@.len() > 0);
                    }
                }
            }
            assert forall|j: int| 0 <= j < f.len() - 1 implies #[trigger] f[j].1.len()
                == NUM_OF_INDICES_IN_SHARD && f[j].0 == f[j].1.last() by {
                if j < kept.len() {
                    assert(f[j] == kept[j]);
                    assert(kept[j] == s0[j]);
                } else {
                    assert(f[j] == c[j - kept.len()]);
                }
            }
        }
    }
}

/// Removes from a key's shards, walking down from the open shard, every shard
/// whose first entry is at least `block_number`. The shard that the cut
/// falls in, or the first one wholly below it, is removed too and returned:
/// when `block_number` is at most the key it was stored under, only its
/// entries below `block_number` are returned.
pub fn unwind_history_shards(shards: &mut Vec<Shard>, block_number: u64) -> (r: Vec<u64>)
    requires
        shards_wf(shards_view(old(shards)@)),
    ensures
        shards_view(final(shards)@) == shards_view(old(shards)@).subrange(
            0,
            final(shards)@.len() as int,
        ),
        final(shards)@.len() < old(shards)@.len() || old(shards)@.len() == 0,
        r@.len() == 0 ==> final(shards)@.len() == 0,
        r@.len() <= NUM_OF_INDICES_IN_SHARD,
        flatten_shards(shards_view(final(shards)@)) + r@ == flatten_shards(
            shards_view(old(shards)@),
        ).filter(|x: u64| x < block_number),
        strictly_ascending(flatten_shards(shards_view(final(shards)@)) + r@),
{
    let ghost s0 = shards_view(shards@);
    assert(s0.len() == shards@.len());
    if shards.len() == 0 || shards[shards.len() - 1].highest_block_number != u64::MAX {
        proof {
            assert(s0.len() == 0);
            assert(flatten_shards(s0) =~= Seq::<u64>::empty());
            lemma_filter_empty(flatten_shards(s0), block_number);
            assert(flatten_shards(s0) + Seq::<u64>::empty() =~= flatten_shards(s0));
            assert(s0.subrange(0, 0) =~= s0);
        }
        return Vec::new();
    }
    proof {
        assert(s0.subrange(0, s0.len() as int) =~= s0);
    }
    while shards.len() > 0
        invariant
            shards_wf(s0),
            s0 == shards_view(old(shards)@),
            s0.len() == old(shards)@.len(),
            shards_view(shards@) == s0.subrange(0, shards@.len() as int),
            shards@.len() <= s0.len(),
            forall|i: int|
                shards@.len() <= i < s0.len() ==> #[trigger] s0[i].1.len() > 0 && s0[i].1[0] >= block_number,
        decreases shards@.len(),
    {
        let ghost pre = shards@;
        let shard = shards.pop().unwrap();
        let ghost m = shards@.len() as int;
        proof {
            assert(shards_view(shards@) =~= s0.subrange(0, m));
            assert(shards_view(pre)[m] == pre[m]@);
            assert(s0[m] == shard@);
            if m < s0.len() - 1 {
                assert(s0[m].1.len() == NUM_OF_INDICES_IN_SHARD);
            }
        }
        let first = shard.list[0];
        if first >= block_number {
            continue;
        }
        let mut kept: Vec<u64> = Vec::new();
        if block_number <= shard.highest_block_number {
            let mut i: usize = 0;
            while i < shard.list.len() && shard.list[i] < block_number
                invariant
                    i <= shard.list@.len(),
                    kept@ == shard.list@.subrange(0, i as int),
                    shards_wf(s0),
                    s0 == shards_view(old(shards)@),
                    s0.len() == old(shards)@.len(),
                    0 <= m < s0.len(),
                    shards@.len() == m,
                    shards_view(shards@) == s0.subrange(0, m),
                    s0[m] == shard@,
                    first < block_number,
                    block_number <= shard.highest_block_number,
                    forall|k: int|
                        m < k < s0.len() ==> #[trigger] s0[k].1.len() > 0 && s0[k].1[0] >= block_number,
                    forall|j: int| 0 <= j < i ==> shard.list@[j] < block_number,
                decreases shard.list@.len() - i,
            {
                kept.push(shard.list[i]);
                proof {
                    assert(kept@ =~= shard.list@.subrange(0, i + 1));
                }
                i = i + 1;
            }
            proof {
                lemma_unwind_split(s0, m, i as int, block_number);
            }
        } else {
            kept = shard.list;
            proof {
                lemma_shard_below(s0, m, block_number);
                lemma_unwind_split(s0, m, shard.list@.len() as int, block_number);
                assert(s0[m].1.subrange(0, s0[m].1.len() as int) =~= s0[m].1);
            }
        }
        proof {
            assert(s0[m].1.len() <= NUM_OF_INDICES_IN_SHARD) by {
                if m < s0.len() - 1 {
                    assert(s0[m].1.len() == NUM_OF_INDICES_IN_SHARD);
                }
            }
        }
        return kept;
    }
    proof {
        lemma_unwind_split(s0, 0, 0, block_number);
        assert(s0[0].1.subrange(0, 0) =~= Seq::<u64>::empty());
        assert(s0.subrange(0, 0) =~= Seq::<(u64, Seq<u64>)>::empty());
        assert(shards_view(shards@) =~= Seq::<(u64, Seq<u64>)>::empty());
        let e = Seq::<u64>::empty();
        assert(flatten_shards(shards_view(shards@)) + e =~= flatten_shards(shards_view(shards@)));
    }
    Vec::new()
}

/// Unwinds a key's shards to the blocks below `block_number`, storing the
/// boundary entries again as the open shard.
pub fn unwind_key_history(shards: &mut Vec<Shard>, block_number: u64)
    requires
        shards_wf(shards_view(old(shards)@)),
    ensures
        shards_wf(shards_view(final(shards)@)),
        flatten_shards(shards_view(final(shards)@)) == flatten_shards(
            shards_view(old(shards)@),
        ).filter(|x: u64| x < block_number),
{
    let ghost s0 = shards_view(shards@);
    let boundary = unwind_history_shards(shards, block_number);
    let ghost s1 = shards_view(shards@);
    if boundary.len() > 0 {
        shards.push(Shard { highest_block_number: u64::MAX, list: boundary });
        proof {
            if s0.len() == 0 {
                assert(flatten_shards(s0) =~= Seq::<u64>::empty());
                lemma_filter_empty(flatten_shards(s0), block_number);
                assert((flatten_shards(s1) + boundary@).len() == 0);
            }
            let f = shards_view(shards@);
            assert(f =~= s1.push((u64::MAX, boundary@)));
            lemma_flatten_push(s1, (u64::MAX, boundary@));
            assert forall|j: int| 0 <= j < f.len() - 1 implies #[trigger] f[j].1.len()
                == NUM_OF_INDICES_IN_SHARD && f[j].0 == f[j].1.last() by {
                assert(f[j] == s1[j]);
                assert(s1[j] == s0[j]);
            }
        }
    } else {
        proof {
            assert(flatten_shards(s1) + boundary@ =~= flatten_shards(s1));
            assert(s1 =~= Seq::<(u64, Seq<u64>)>::empty());
        }
    }
}

proof fn lemma_flatten_split(s: Seq<(u64, Seq<u64>)>, m: int)
    requires
        0 <= m < s.len(),
    ensures
        flatten_shards(s) == flatten_shards(s.subrange(0, m)) + s[m].1 + flatten_shards(
            s.subrange(m + 1, s.len() as int),
        ),
        m + 1 < s.len() ==> flatten_shards(s.subrange(m + 1, s.len() as int)) == s[m + 1].1
            + flatten_shards(s.subrange(m + 2, s.len() as int)),
{
    let a = s.subrange(0, m);
    let b = s.subrange(m, m + 1);
    let c = s.subrange(m + 1, s.len() as int);
    assert(s =~= a + b + c);
    lemma_flatten_append(a + b, c);
    lemma_flatten_append(a, b);
    assert(b =~= Seq::<(u64, Seq<u64>)>::empty().push(s[m]));
    lemma_flatten_push(Seq::<(u64, Seq<u64>)>::empty(), s[m]);
    assert(flatten_shards(Seq::<(u64, Seq<u64>)>::empty()) + s[m].1 =~= s[m].1);
    if m + 1 < s.len() {
        let d = s.subrange(m + 1, m + 2);
        let e = s.subrange(m + 2, s.len() as int);
        assert(c =~= d + e);
        lemma_flatten_append(d, e);
        assert(d =~= Seq::<(u64, Seq<u64>)>::empty().push(s[m + 1]));
        lemma_flatten_push(Seq::<(u64, Seq<u64>)>::empty(), s[m + 1]);
        assert(flatten_shards(Seq::<(u64, Seq<u64>)>::empty()) + s[m + 1].1 =~= s[m + 1].1);
    }
}

proof fn lemma_filter_below_prefix(x: Seq<u64>, p: int, b: u64)
    requires
        strictly_ascending(x),
        0 <= p <= x.len(),
        p > 0 ==> x[p - 1] < b,
        p < x.len() ==> x[p] >= b,
    ensures
        x.filter(|v: u64| v < b) == x.subrange(0, p),
{
    let f = |v: u64| v < b;
    let y = x.subrange(0, p);
    let z = x.subrange(p, x.len() as int);
    assert(x =~= y + z);
    Seq::filter_distributes_over_add(y, z, f);
    assert forall|i: int| 0 <= i < y.len() implies f(y[i]) by {
        if i < p - 1 {
            assert(x[i] < x[p - 1]);
        }
    }
    assert forall|i: int| 0 <= i < z.len() implies !f(z[i]) by {
        if i > 0 {
            assert(x[p] < x[p + i]);
        }
    }
    crate::table::lemma_filter_all(y, f);
    crate::table::lemma_filter_none(z, f);
    assert(y + Seq::<u64>::empty() =~= y);
}

proof fn lemma_shard_entry(s: Seq<(u64, Seq<u64>)>, m: int, j: int)
    requires
        0 <= m < s.len(),
        0 <= j < s[m].1.len(),
    ensures
        flatten_shards(s)[flatten_shards(s.subrange(0, m)).len() + j] == s[m].1[j],
{
    lemma_flatten_split(s, m);
}

proof fn lemma_shard_below(s: Seq<(u64, Seq<u64>)>, m: int, b: u64)
    requires
        shards_wf(s),
        0 <= m < s.len(),
        s[m].0 < b,
    ensures
        forall|j: int| 0 <= j < s[m].1.len() ==> s[m].1[j] < b,
{
    assert(m < s.len() - 1);
    assert(s[m].1.len() == NUM_OF_INDICES_IN_SHARD && s[m].0 == s[m].1.last());
    let n = s[m].1.len() as int;
    let off = flatten_shards(s.subrange(0, m)).len() as int;
    lemma_flatten_split(s, m);
    assert(flatten_shards(s).len() >= off + n);
    assert forall|j: int| 0 <= j < n implies s[m].1[j] < b by {
        lemma_shard_entry(s, m, j);
        lemma_shard_entry(s, m, n - 1);
        if j < n - 1 {
            assert(flatten_shards(s)[off + j] < flatten_shards(s)[off + n - 1]);
        }
    }
}

proof fn lemma_unwind_split(s: Seq<(u64, Seq<u64>)>, m: int, i: int, b: u64)
    requires
        shards_wf(s),
        0 <= m < s.len(),
        0 <= i <= s[m].1.len(),
        i > 0 || m == 0,
        forall|j: int| 0 <= j < i ==> s[m].1[j] < b,
        i < s[m].1.len() ==> s[m].1[i] >= b,
        forall|k: int| m < k < s.len() ==> #[trigger] s[k].1.len() > 0 && s[k].1[0] >= b,
    ensures
        flatten_shards(s.subrange(0, m)) + s[m].1.subrange(0, i) == flatten_shards(s).filter(
            |v: u64| v < b,
        ),
        strictly_ascending(flatten_shards(s.subrange(0, m)) + s[m].1.subrange(0, i)),
{
    let f = flatten_shards(s);
    let a = flatten_shards(s.subrange(0, m));
    let c = flatten_shards(s.subrange(m + 1, s.len() as int));
    lemma_flatten_split(s, m);
    let p = a.len() + i;
    if m == 0 {
        assert(s.subrange(0, 0) =~= Seq::<(u64, Seq<u64>)>::empty());
        assert(a =~= Seq::<u64>::empty());
    }
    assert(p > 0 ==> f[p - 1] < b) by {
        if p > 0 {
            assert(f[p - 1] == s[m].1[i - 1]);
        }
    }
    assert(p < f.len() ==> f[p] >= b) by {
        if p < f.len() {
            if i < s[m].1.len() {
                assert(f[p] == s[m].1[i]);
            } else {
                assert(m + 1 < s.len());
                assert(f[p] == c[0]);
                assert(c[0] == s[m + 1].1[0]);
            }
        }
    }
    lemma_filter_below_prefix(f, p, b);
    assert(f.subrange(0, p) =~= a + s[m].1.subrange(0, i));
}

proof fn lemma_offsets_grow(s: Seq<(u64, Seq<u64>)>, i: int, j: int)
    requires
        0 <= i < j <= s.len(),
    ensures
        flatten_shards(s.subrange(0, j)).len() >= flatten_shards(s.subrange(0, i)).len() + s[i].1.len(),
{
    let a = s.subrange(0, i + 1);
    let b = s.subrange(i + 1, j);
    assert(s.subrange(0, j) =~= a + b);
    lemma_flatten_append(a, b);
    assert(a =~= s.subrange(0, i).push(s[i]));
    lemma_flatten_push(s.subrange(0, i), s[i]);
}

/// The law of the sharded index: a key's well-formed shards each hold at
/// most `NUM_OF_INDICES_IN_SHARD` block numbers, all but the last exactly
/// that many; they are stored under strictly ascending keys; and read in
/// that order they give the key's change blocks in strictly ascending order.
pub proof fn lemma_shards_hold_history(s: Seq<(u64, Seq<u64>)>)
    requires
        shards_wf(s),
    ensures
        forall|i: int| 0 <= i < s.len() ==> 0 < (#[trigger] s[i]).1.len() <= NUM_OF_INDICES_IN_SHARD,
        forall|i: int| 0 <= i < s.len() - 1 ==> (#[trigger] s[i]).1.len() == NUM_OF_INDICES_IN_SHARD,
        forall|i: int, j: int| 0 <= i < j < s.len() ==> s[i].0 < s[j].0,
        strictly_ascending(flatten_shards(s)),
{
    assert forall|i: int| 0 <= i < s.len() implies 0 < (#[trigger] s[i]).1.len() <= NUM_OF_INDICES_IN_SHARD by {
        if i < s.len() - 1 {
            assert(s[i].1.len() == NUM_OF_INDICES_IN_SHARD);
        }
    }
    let f = flatten_shards(s);
    assert forall|i: int, j: int| 0 <= i < j < s.len() implies s[i].0 < s[j].0 by {
        assert(s[i].1.len() == NUM_OF_INDICES_IN_SHARD && s[i].0 == s[i].1.last());
        let oi = flatten_shards(s.subrange(0, i)).len() as int;
        let oj = flatten_shards(s.subrange(0, j)).len() as int;
        let ni = s[i].1.len() as int;
        let nj = s[j].1.len() as int;
        lemma_offsets_grow(s, i, j);
        lemma_shard_entry(s, i, ni - 1);
        lemma_flatten_split(s, j);
        assert(nj > 0) by {
            if j < s.len() - 1 {
                assert(s[j].1.len() == NUM_OF_INDICES_IN_SHARD);
            }
        }
        lemma_shard_entry(s, j, 0);
        assert(f[oi + ni - 1] < f[oj]);
        if j < s.len() - 1 {
            assert(s[j].1.len() == NUM_OF_INDICES_IN_SHARD && s[j].0 == s[j].1.last());
            lemma_shard_entry(s, j, nj - 1);
            if nj - 1 > 0 {
                assert(f[oj] < f[oj + nj - 1]);
            }
        }
    }
}

proof fn lemma_filter_empty(x: Seq<u64>, b: u64)
    requires
        x.len() == 0,
    ensures
        x.filter(|v: u64| v < b) == Seq::<u64>::empty(),
{
    reveal(Seq::filter);
    assert(x =~= Seq::<u64>::empty());
}

} // verus!
