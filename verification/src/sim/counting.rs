//! Counting sort into buckets: the facts behind the bucket tables of the
//! constraint coloring and the particle spatial hash.

use vstd::prelude::*;

verus! {

/// The keys of a `u32` table as naturals.
pub open spec fn key_seq(keys: Seq<u32>) -> Seq<nat> {
    keys.map_values(|k: u32| k as nat)
}

/// How many of the first `m` keys equal `k`.
pub open spec fn count_key(keys: Seq<nat>, k: nat, m: int) -> nat
    decreases m,
{
    if m <= 0 {
        0
    } else {
        count_key(keys, k, m - 1) + if keys[m - 1] == k { 1nat } else { 0nat }
    }
}

/// How many of the first `m` keys are below `k`.
pub open spec fn count_below(keys: Seq<nat>, k: nat, m: int) -> nat
    decreases m,
{
    if m <= 0 {
        0
    } else {
        count_below(keys, k, m - 1) + if keys[m - 1] < k { 1nat } else { 0nat }
    }
}

pub proof fn lemma_count_mono(keys: Seq<nat>, k: nat, a: int, b: int)
    requires
        0 <= a <= b,
    ensures
        count_key(keys, k, a) <= count_key(keys, k, b),
    decreases b,
{
    if a < b {
        lemma_count_mono(keys, k, a, b - 1);
    }
}

pub proof fn lemma_count_le(keys: Seq<nat>, k: nat, m: int)
    requires
        0 <= m,
    ensures
        count_key(keys, k, m) <= m,
        count_below(keys, 0, m) == 0,
    decreases m,
{
    if m > 0 {
        lemma_count_le(keys, k, m - 1);
    }
}

pub proof fn lemma_count_strict(keys: Seq<nat>, k: nat, j: int, i: int)
    requires
        0 <= j < i,
        keys[j] == k,
    ensures
        count_key(keys, k, j) < count_key(keys, k, i),
{
    lemma_count_mono(keys, k, j + 1, i);
}

pub proof fn lemma_count_hits(keys: Seq<nat>, k: nat, r: nat, m: int)
    requires
        0 <= m,
        r < count_key(keys, k, m),
    ensures
        exists|j: int| 0 <= j < m && keys[j] == k && #[trigger] count_key(keys, k, j) == r,
    decreases m,
{
    if r < count_key(keys, k, m - 1) {
        lemma_count_hits(keys, k, r, m - 1);
        let j = choose|j: int| 0 <= j < m - 1 && keys[j] == k && #[trigger] count_key(keys, k, j) == r;
        assert(0 <= j < m && keys[j] == k && count_key(keys, k, j) == r);
    } else {
        assert(keys[m - 1] == k && count_key(keys, k, m - 1) == r);
    }
}

pub proof fn lemma_count_below_step(keys: Seq<nat>, k: nat, m: int)
    requires
        0 <= m,
    ensures
        count_below(keys, k + 1, m) == count_below(keys, k, m) + count_key(keys, k, m),
        count_below(keys, k, m) <= m,
    decreases m,
{
    if m > 0 {
        lemma_count_below_step(keys, k, m - 1);
    }
}

pub proof fn lemma_count_below_mono(keys: Seq<nat>, k1: nat, k2: nat, m: int)
    requires
        0 <= m,
        k1 <= k2,
    ensures
        count_below(keys, k1, m) <= count_below(keys, k2, m),
    decreases k2 - k1,
{
    if k1 < k2 {
        lemma_count_below_mono(keys, k1, (k2 - 1) as nat, m);
        lemma_count_below_step(keys, (k2 - 1) as nat, m);
    }
}

pub proof fn lemma_count_below_all(keys: Seq<nat>, k: nat, m: int)
    requires
        0 <= m <= keys.len(),
        forall|i: int| 0 <= i < m ==> keys[i] < k,
    ensures
        count_below(keys, k, m) == m,
    decreases m,
{
    if m > 0 {
        lemma_count_below_all(keys, k, m - 1);
    }
}

/// The slot that the counting sort gives item `j` lies inside its key's
/// bucket, and the buckets of lower keys end before it.
pub proof fn lemma_slot_in_class(keys: Seq<nat>, nb: nat, j: int)
    requires
        0 <= j < keys.len(),
        forall|i: int| 0 <= i < keys.len() ==> #[trigger] keys[i] < nb,
    ensures
        count_below(keys, keys[j], keys.len() as int) + count_key(keys, keys[j], j)
            < count_below(keys, keys[j] + 1, keys.len() as int),
        count_below(keys, keys[j] + 1, keys.len() as int) <= keys.len(),
        forall|k: nat| keys[j] < k ==> count_below(keys, keys[j] + 1, keys.len() as int) <= #[trigger] count_below(keys, k, keys.len() as int),
        forall|k: nat| k < keys[j] ==> #[trigger] count_below(keys, k + 1, keys.len() as int) <= count_below(keys, keys[j], keys.len() as int),
{
    let n = keys.len() as int;
    lemma_count_strict(keys, keys[j], j, n);
    lemma_count_below_step(keys, keys[j], n);
    lemma_count_below_all(keys, nb, n);
    lemma_count_below_mono(keys, keys[j] + 1, nb, n);
    assert forall|k: nat| keys[j] < k implies count_below(keys, keys[j] + 1, n) <= #[trigger] count_below(keys, k, n) by {
        lemma_count_below_mono(keys, keys[j] + 1, k, n);
    }
    assert forall|k: nat| k < keys[j] implies #[trigger] count_below(keys, k + 1, n) <= count_below(keys, keys[j], n) by {
        lemma_count_below_mono(keys, k + 1, keys[j], n);
    }
}

/// `starts`/`order` bucket the items `0..keys.len()` by key into `nb`
/// buckets: bucket `k` is the slice `order[starts[k]..starts[k+1]]` and lists,
/// in increasing order, exactly the items whose key is `k`.
pub open spec fn is_bucketing(starts: Seq<u32>, order: Seq<u32>, keys: Seq<nat>, nb: nat) -> bool {
    let n = keys.len();
    &&& starts.len() == nb + 1
    &&& order.len() == n
    &&& starts[0] == 0
    &&& (forall|k: int| 0 <= k < nb ==> #[trigger] starts[k + 1] == starts[k] + count_key(keys, k as nat, n as int))
    &&& (forall|k: int, s: int| #![trigger starts[k], order[s]]
            0 <= k < nb && starts[k] <= s < starts[k + 1] ==> order[s] < n && keys[order[s] as int] == k)
    &&& (forall|k: int, s: int, t: int| #![trigger starts[k], order[s], order[t]]
            0 <= k < nb && starts[k] <= s < t < starts[k + 1] ==> order[s] < order[t])
}

proof fn lemma_starts_prefix(starts: Seq<u32>, order: Seq<u32>, keys: Seq<nat>, nb: nat, k: int)
    requires
        is_bucketing(starts, order, keys, nb),
        0 <= k <= nb,
    ensures
        starts[k] == count_below(keys, k as nat, keys.len() as int),
    decreases k,
{
    let n = keys.len() as int;
    if k == 0 {
        lemma_count_le(keys, 0, n);
    } else {
        lemma_starts_prefix(starts, order, keys, nb, k - 1);
        lemma_count_below_step(keys, (k - 1) as nat, n);
        assert(starts[k] == starts[k - 1] + count_key(keys, (k - 1) as nat, n));
    }
}

/// The buckets tile `order`: `starts[k]` counts the items with a key below
/// `k`, so the last start is the number of items.
pub proof fn lemma_buckets_tile(starts: Seq<u32>, order: Seq<u32>, keys: Seq<nat>, nb: nat)
    requires
        is_bucketing(starts, order, keys, nb),
        forall|i: int| 0 <= i < keys.len() ==> #[trigger] keys[i] < nb,
    ensures
        forall|k: int| 0 <= k <= nb ==> #[trigger] starts[k] == count_below(keys, k as nat, keys.len() as int),
        starts[nb as int] == order.len(),
{
    assert forall|k: int| 0 <= k <= nb implies #[trigger] starts[k] == count_below(keys, k as nat, keys.len() as int) by {
        lemma_starts_prefix(starts, order, keys, nb, k);
    }
    lemma_count_below_all(keys, nb, keys.len() as int);
}

/// Stable counting sort of the items `0..keys.len()` into `num_buckets`
/// buckets by key: `(starts, order)` with bucket `k` the slice
/// `order[starts[k]..starts[k+1]]`.
pub fn bucket_sort(key_of: &Vec<u32>, num_buckets: usize) -> (r: (Vec<u32>, Vec<u32>))
    requires
        key_of.len() <= u32::MAX,
        num_buckets < usize::MAX,
        forall|i: int| 0 <= i < key_of.len() ==> #[trigger] key_of@[i] < num_buckets,
    ensures
        is_bucketing(r.0@, r.1@, key_seq(key_of@), num_buckets as nat),
{
    let ghost keys = key_seq(key_of@);
    let n_items = key_of.len();
    let ghost n = n_items as int;
    let mut counts: Vec<u32> = vec![0u32; num_buckets];
    let mut i: usize = 0;
    while i < n_items
        invariant
            n == n_items == key_of.len() == keys.len(),
            keys == key_seq(key_of@),
            n_items <= u32::MAX,
            forall|i: int| 0 <= i < keys.len() ==> #[trigger] key_of@[i] as nat == keys[i],
            forall|i: int| 0 <= i < keys.len() ==> key_of@[i] < num_buckets,
            0 <= i <= n_items,
            counts.len() == num_buckets,
            forall|k: int| 0 <= k < num_buckets ==> #[trigger] counts@[k] as nat == count_key(keys, k as nat, i as int),
        decreases n_items - i,
    {
        let c = key_of[i];
        proof {
            lemma_count_mono(keys, c as nat, i + 1, n);
            lemma_count_mono(keys, c as nat, 0, i as int);
            lemma_count_strict(keys, c as nat, i as int, n);
            lemma_count_le(keys, c as nat, n);
            assert(count_key(keys, c as nat, i as int) < n);
        }
        let old_count = counts[c as usize];
        counts.set(c as usize, old_count + 1);
        i = i + 1;
    }
    let mut offsets: Vec<u32> = vec![0u32; num_buckets + 1];
    proof {
        lemma_count_le(keys, 0, n);
    }
    let mut k: usize = 0;
    while k < num_buckets
        invariant
            n == n_items == keys.len(),
            n_items <= u32::MAX,
            counts.len() == num_buckets,
            offsets.len() == num_buckets + 1,
            0 <= k <= num_buckets,
            forall|k2: int| 0 <= k2 < num_buckets ==> #[trigger] counts@[k2] as nat == count_key(keys, k2 as nat, n),
            forall|k2: int| 0 <= k2 <= k ==> #[trigger] offsets@[k2] as nat == count_below(keys, k2 as nat, n),
        decreases num_buckets - k,
    {
        proof {
            lemma_count_below_step(keys, k as nat, n);
            lemma_count_below_step(keys, (k + 1) as nat, n);
        }
        let next = offsets[k] + counts[k];
        offsets.set(k + 1, next);
        k = k + 1;
    }
    proof {
        assert forall|j: int| 0 <= j < n implies #[trigger] keys[j] < num_buckets by {
            assert(key_of@[j] < num_buckets);
        }
        lemma_count_below_all(keys, num_buckets as nat, n);
        assert forall|k2: int| 0 <= k2 < num_buckets implies #[trigger] offsets@[k2 + 1] == offsets@[k2] + count_key(keys, k2 as nat, n) by {
            lemma_count_below_step(keys, k2 as nat, n);
        }
    }
    let mut cursor = offsets.clone();
    let mut idx: Vec<u32> = vec![0u32; n_items];
    let mut i: usize = 0;
    while i < n_items
        invariant
            n == n_items == key_of.len() == keys.len(),
            keys == key_seq(key_of@),
            n_items <= u32::MAX,
            forall|i: int| 0 <= i < keys.len() ==> #[trigger] key_of@[i] as nat == keys[i],
            forall|i: int| 0 <= i < keys.len() ==> key_of@[i] < num_buckets,
            offsets.len() == num_buckets + 1,
            cursor.len() == num_buckets + 1,
            idx.len() == n_items,
            0 <= i <= n_items,
            count_below(keys, num_buckets as nat, n) == n,
            forall|j: int| 0 <= j < n ==> #[trigger] keys[j] < num_buckets,
            forall|k2: int| 0 <= k2 <= num_buckets ==> #[trigger] offsets@[k2] as nat == count_below(keys, k2 as nat, n),
            forall|k2: int| 0 <= k2 < num_buckets ==> #[trigger] cursor@[k2] as nat == offsets@[k2] + count_key(keys, k2 as nat, i as int),
            forall|j: int| 0 <= j < i ==> offsets@[keys[j] as int] + #[trigger] count_key(keys, keys[j], j) < n
                && idx@[offsets@[keys[j] as int] + count_key(keys, keys[j], j)] == j,
        decreases n_items - i,
    {
        let c = key_of[i];
        let slot = cursor[c as usize];
        proof {
            lemma_count_strict(keys, c as nat, i as int, n);
            lemma_count_mono(keys, c as nat, i + 1, n);
            lemma_count_below_step(keys, c as nat, n);
            lemma_count_below_mono(keys, (c + 1) as nat, num_buckets as nat, n);
            assert(slot < n);
        }
        let ghost before = idx@;
        idx.set(slot as usize, i as u32);
        cursor.set(c as usize, slot + 1);
        proof {
            assert forall|j: int| 0 <= j < i + 1 implies offsets@[keys[j] as int] + #[trigger] count_key(keys, keys[j], j) < n
                && idx@[offsets@[keys[j] as int] + count_key(keys, keys[j], j)] == j by {
                lemma_slot_in_class(keys, num_buckets as nat, j);
                lemma_slot_in_class(keys, num_buckets as nat, i as int);
                if j < i {
                    let cj = keys[j];
                    if cj == c as nat {
                        lemma_count_strict(keys, cj, j, i as int);
                    } else if cj < c as nat {
                        lemma_count_strict(keys, cj, j, n);
                        lemma_count_below_step(keys, cj, n);
                        lemma_count_below_mono(keys, cj + 1, c as nat, n);
                    } else {
                        lemma_count_below_step(keys, c as nat, n);
                        lemma_count_below_mono(keys, (c + 1) as nat, cj, n);
                    }
                    assert(idx@[offsets@[keys[j] as int] + count_key(keys, keys[j], j)]
                        == before[offsets@[keys[j] as int] + count_key(keys, keys[j], j)]);
                }
            }
        }
        i = i + 1;
    }
    let r = (offsets, idx);
    proof {
        assert forall|k2: int, s: int| #![trigger r.0@[k2], r.1@[s]]
            0 <= k2 < num_buckets && r.0@[k2] <= s < r.0@[k2 + 1] implies
            r.1@[s] < n && keys[r.1@[s] as int] == k2 by {
            let rank = (s - r.0@[k2]) as nat;
            lemma_count_below_step(keys, k2 as nat, n);
            lemma_count_hits(keys, k2 as nat, rank, n);
            let j = choose|j: int| 0 <= j < n && keys[j] == k2 as nat && #[trigger] count_key(keys, k2 as nat, j) == rank;
            assert(r.1@[s] == j);
        }
        assert forall|k2: int, s: int, t: int| #![trigger r.0@[k2], r.1@[s], r.1@[t]]
            0 <= k2 < num_buckets && r.0@[k2] <= s < t < r.0@[k2 + 1] implies
            r.1@[s] < r.1@[t] by {
            let rs = (s - r.0@[k2]) as nat;
            let rt = (t - r.0@[k2]) as nat;
            lemma_count_below_step(keys, k2 as nat, n);
            lemma_count_hits(keys, k2 as nat, rs, n);
            lemma_count_hits(keys, k2 as nat, rt, n);
            let j1 = choose|j: int| 0 <= j < n && keys[j] == k2 as nat && #[trigger] count_key(keys, k2 as nat, j) == rs;
            let j2 = choose|j: int| 0 <= j < n && keys[j] == k2 as nat && #[trigger] count_key(keys, k2 as nat, j) == rt;
            assert(r.1@[s] == j1);
            assert(r.1@[t] == j2);
            if j2 <= j1 {
                lemma_count_mono(keys, k2 as nat, j2, j1);
            }
        }
    }
    r
}


/// The `r`-th item of bucket `k` has at least `r` items of key `k` before it.
proof fn lemma_bucket_rank_lower(starts: Seq<u32>, order: Seq<u32>, keys: Seq<nat>, nb: nat, k: int, r: int)
    requires
        is_bucketing(starts, order, keys, nb),
        0 <= k < nb,
        0 <= r < count_key(keys, k as nat, keys.len() as int),
    ensures
        order[starts[k] + r] < keys.len(),
        keys[order[starts[k] + r] as int] == k,
        count_key(keys, k as nat, order[starts[k] + r] as int) >= r,
    decreases r,
{
    let s = starts[k] + r;
    assert(starts[k] <= s < starts[k + 1]);
    assert(order[s] < keys.len() && keys[order[s] as int] == k);
    if r > 0 {
        lemma_bucket_rank_lower(starts, order, keys, nb, k, r - 1);
        let prev = order[s - 1] as int;
        assert(starts[k] <= s - 1 < s < starts[k + 1]);
        assert(order[s - 1] < order[s]);
        lemma_count_strict(keys, k as nat, prev, order[s] as int);
    }
}

/// The `r`-th item of bucket `k` has at most `r` items of key `k` before it.
proof fn lemma_bucket_rank_upper(starts: Seq<u32>, order: Seq<u32>, keys: Seq<nat>, nb: nat, k: int, r: int)
    requires
        is_bucketing(starts, order, keys, nb),
        0 <= k < nb,
        0 <= r < count_key(keys, k as nat, keys.len() as int),
    ensures
        count_key(keys, k as nat, order[starts[k] + r] as int) <= r,
    decreases count_key(keys, k as nat, keys.len() as int) - r,
{
    let n = keys.len() as int;
    let m = count_key(keys, k as nat, n);
    let s = starts[k] + r;
    assert(starts[k] <= s < starts[k + 1]);
    let a = order[s] as int;
    assert(a < n && keys[a] == k);
    if r == m - 1 {
        lemma_count_strict(keys, k as nat, a, n);
    } else {
        lemma_bucket_rank_upper(starts, order, keys, nb, k, r + 1);
        assert(starts[k] <= s < s + 1 < starts[k + 1]);
        assert(order[s] < order[s + 1]);
        lemma_bucket_rank_lower(starts, order, keys, nb, k, r + 1);
        lemma_count_strict(keys, k as nat, a, order[s + 1] as int);
    }
}

/// Every item sits in the bucket of its key, at the slot given by how many
/// items of the same key come before it: the buckets hold each item exactly once.
pub proof fn lemma_bucketing_places_every_item(starts: Seq<u32>, order: Seq<u32>, keys: Seq<nat>, nb: nat, i: int)
    requires
        is_bucketing(starts, order, keys, nb),
        forall|j: int| 0 <= j < keys.len() ==> #[trigger] keys[j] < nb,
        0 <= i < keys.len(),
    ensures
        starts[keys[i] as int] + count_key(keys, keys[i], i) < starts[keys[i] + 1int],
        order[starts[keys[i] as int] + count_key(keys, keys[i], i)] == i,
{
    let n = keys.len() as int;
    let k = keys[i] as int;
    let q = count_key(keys, k as nat, i) as int;
    lemma_count_strict(keys, k as nat, i, n);
    lemma_bucket_rank_lower(starts, order, keys, nb, k, q);
    lemma_bucket_rank_upper(starts, order, keys, nb, k, q);
    let a = order[starts[k] + q] as int;
    if a < i {
        lemma_count_strict(keys, k as nat, a, i);
    } else if a > i {
        lemma_count_strict(keys, k as nat, i, a);
    }
}

} // verus!
