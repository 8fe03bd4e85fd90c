//! Flat-array uniform spatial hash for particles.
//!
//! O(N) build via two linear passes (counting sort). No `HashMap`,
//! no pointer chasing — all data is contiguous `Vec<u32>`.

use vstd::prelude::*;

use crate::sim::counting::{
    bucket_sort, is_bucketing, key_seq, lemma_bucketing_places_every_item, lemma_buckets_tile,
};

verus! {

/// `n` is a prime number.
pub open spec fn spec_is_prime(n: nat) -> bool {
    n >= 2 && forall|d: nat| 2 <= d < n ==> #[trigger] (n % d) != 0
}

/// Both factors of an odd product are odd.
proof fn lemma_odd_factors(n: nat, x: nat, y: nat)
    requires
        n == x * y,
        n % 2 == 1,
    ensures
        x % 2 == 1,
        y % 2 == 1,
{
    assert(x % 2 == 1) by (nonlinear_arith)
        requires
            n == x * y,
            n % 2 == 1,
    {
        if x % 2 == 0 {
            assert(x == 2 * (x / 2));
            assert(n == 2 * ((x / 2) * y));
        }
    }
    assert(y % 2 == 1) by (nonlinear_arith)
        requires
            n == x * y,
            n % 2 == 1,
    {
        if y % 2 == 0 {
            assert(y == 2 * (y / 2));
            assert(n == 2 * (x * (y / 2)));
        }
    }
}

/// An odd number with no odd divisor in `3..d`, where `d * d > n`, is prime.
pub proof fn lemma_trial_division(n: nat, d: nat)
    requires
        n >= 3,
        n % 2 == 1,
        d * d > n,
        forall|x: nat| 3 <= x < d && x % 2 == 1 ==> #[trigger] (n % x) != 0,
    ensures
        spec_is_prime(n),
{
    assert forall|x: nat| 2 <= x < n implies #[trigger] (n % x) != 0 by {
        if n % x == 0 {
            let y = n / x;
            vstd::arithmetic::div_mod::lemma_fundamental_div_mod(n as int, x as int);
            assert(n == x * y);
            lemma_odd_factors(n, x, y);
            if x >= d {
                assert(y < x && y >= 2 && y < d) by (nonlinear_arith)
                    requires
                        n == x * y,
                        x >= d,
                        d * d > n,
                        x < n,
                        x >= 2,
                {
                }
                assert(n % y == 0) by (nonlinear_arith)
                    requires
                        n == x * y,
                        y >= 2,
                {
                    vstd::arithmetic::div_mod::lemma_mod_multiples_basic(x as int, y as int);
                }
                assert(y >= 3);
            }
        }
    }
}

/// `65535 * 65535`: trial division of a prime at or above this bound would
/// square `65537` in `u32` arithmetic.
pub const TRIAL_SQUARE_LIMIT: u64 = 4294836225;

/// An even number above 2 is not prime.
proof fn lemma_even_not_prime(n: nat)
    requires
        n > 2,
        n % 2 == 0,
    ensures
        !spec_is_prime(n),
{
    assert(n % 2 == 0);
}

/// Trial division by odd divisors up to the square root.
pub fn is_prime(n: u32) -> (r: bool)
    requires
        !(spec_is_prime(n as nat) && n >= TRIAL_SQUARE_LIMIT),
    ensures
        r == spec_is_prime(n as nat),
{
    if n < 2 {
        return false;
    }
    if n % 2 == 0 {
        proof {
            if n > 2 {
                lemma_even_not_prime(n as nat);
            }
        }
        return n == 2;
    }
    let mut d: u32 = 3;
    while d * d <= n
        invariant
            3 <= d <= 65535,
            d % 2 == 1,
            n % 2 == 1,
            n >= 3,
            !(spec_is_prime(n as nat) && n >= TRIAL_SQUARE_LIMIT),
            forall|x: nat| 3 <= x < d && x % 2 == 1 ==> #[trigger] (n as nat % x) != 0,
            d * d <= TRIAL_SQUARE_LIMIT,
        decreases 65536 - d,
    {
        if n % d == 0 {
            proof {
                assert(d < n) by (nonlinear_arith)
                    requires
                        d * d <= n,
                        d >= 3,
                {
                }
                assert((n as nat) % (d as nat) == 0);
            }
            return false;
        }
        if d == 65535 {
            proof {
                assert forall|x: nat| 3 <= x < 65537 && x % 2 == 1 implies #[trigger] (n as nat % x) != 0 by {
                    if x == 65536 {
                    } else if x == 65535 {
                    }
                }
                lemma_trial_division(n as nat, 65537);
                assert(n >= TRIAL_SQUARE_LIMIT);
            }
        }
        d = d + 2;
        proof {
            assert(d * d <= TRIAL_SQUARE_LIMIT) by (nonlinear_arith)
                requires
                    d <= 65535,
                    d >= 0,
            {
            }
        }
    }
    proof {
        lemma_trial_division(n as nat, d as nat);
    }
    true
}

/// `r` is the prime that `next_prime(n)` looks for: 2 below 2, otherwise the
/// least odd prime at or above `n`.
pub open spec fn is_next_prime(n: nat, r: nat) -> bool {
    if n < 2 {
        r == 2
    } else {
        &&& n <= r
        &&& r % 2 == 1
        &&& spec_is_prime(r)
        &&& forall|m: nat| n <= m < r && m % 2 == 1 ==> !#[trigger] spec_is_prime(m)
    }
}

/// There is an odd prime at or above `n` that trial division can confirm.
pub open spec fn has_odd_prime_from(n: nat, limit: nat) -> bool {
    exists|p: nat| n <= p < limit && p % 2 == 1 && #[trigger] spec_is_prime(p)
}

/// Least odd prime at or above `n` (2 for `n < 2`).
pub fn next_prime(n: u32) -> (r: u32)
    requires
        n < 2 || has_odd_prime_from(n as nat, TRIAL_SQUARE_LIMIT as nat),
    ensures
        is_next_prime(n as nat, r as nat),
{
    if n < 2 {
        return 2;
    }
    let ghost n0 = n;
    let ghost p = choose|p: nat| n0 <= p < TRIAL_SQUARE_LIMIT && p % 2 == 1 && #[trigger] spec_is_prime(p);
    let mut cand = n;
    if cand % 2 == 0 {
        proof {
            if cand > 2 {
                lemma_even_not_prime(cand as nat);
            }
        }
        cand = cand + 1;
    }
    loop
        invariant
            n0 == n,
            n0 <= cand <= p,
            n0 >= 2,
            cand % 2 == 1,
            p < TRIAL_SQUARE_LIMIT,
            p % 2 == 1,
            spec_is_prime(p),
            forall|m: nat| n0 <= m < cand && m % 2 == 1 ==> !#[trigger] spec_is_prime(m),
        decreases p - cand,
    {
        if is_prime(cand) {
            return cand;
        }
        assert(cand < p);
        cand = cand + 2;
    }
}

/// Bucket of the integer cell `(ix, iy, iz)` in a table of `table_size`
/// buckets: the three coordinates times large primes (wrapping in `i32`),
/// combined by xor as `i64`, read as `u64`, modulo the table size.
pub open spec fn spec_hash_cell(ix: i32, iy: i32, iz: i32, table_size: u32) -> u32 {
    let h = ((ix.wrapping_mul(73856093) as i64) ^ (iy.wrapping_mul(19349663) as i64) ^ (iz.wrapping_mul(
        83492791,
    ) as i64)) as u64;
    (h % (table_size as u64)) as u32
}

pub fn hash_cell(ix: i32, iy: i32, iz: i32, table_size: u32) -> (r: u32)
    requires
        table_size > 0,
    ensures
        r == spec_hash_cell(ix, iy, iz, table_size),
        r < table_size,
{
    let h = ((ix.wrapping_mul(73856093) as i64) ^ (iy.wrapping_mul(19349663) as i64) ^ (iz.wrapping_mul(
        83492791,
    ) as i64)) as u64;
    (h % (table_size as u64)) as u32
}

/// Position of the offset `(dx, dy, dz)` in the 3x3x3 block, x fastest.
proof fn lemma_block_index(dx: int, dy: int, dz: int)
    requires
        -1 <= dx <= 1,
        -1 <= dy <= 1,
        -1 <= dz <= 1,
    ensures
        (9 * (dz + 1) + 3 * (dy + 1) + (dx + 1)) % 3 == dx + 1,
        ((9 * (dz + 1) + 3 * (dy + 1) + (dx + 1)) / 3) % 3 == dy + 1,
        (9 * (dz + 1) + 3 * (dy + 1) + (dx + 1)) / 9 == dz + 1,
{
}

/// The table size the hash starts from for `num_particles` particles.
pub open spec fn table_seed(num_particles: nat) -> nat {
    if num_particles * 2 > 31 { num_particles * 2 } else { 31 }
}

/// Bucket keys of a list of integer cells.
pub open spec fn cell_keys(cells: Seq<(i32, i32, i32)>, table_size: u32) -> Seq<u32> {
    cells.map_values(|c: (i32, i32, i32)| spec_hash_cell(c.0, c.1, c.2, table_size))
}

/// Uniform spatial hash over integer cells: `cell_start[k]..cell_start[k+1]`
/// indexes into `particle_id`, which lists the particles bucket by bucket.
pub struct ParticleHash {
    /// Number of buckets (a prime).
    pub table_size: u32,
    /// Length `table_size + 1`. `cell_start[k]..cell_start[k+1]` indexes into `particle_id`.
    pub cell_start: Vec<u32>,
    /// Particles re-ordered so each cell is a contiguous run.
    pub particle_id: Vec<u32>,
}

impl ParticleHash {
    pub open spec fn spec_table_size(&self) -> u32 {
        self.table_size
    }

    /// The bucket table is usable: one start per bucket plus an end, the
    /// starts never decrease, and the last stays within `particle_id`.
    pub open spec fn wf(&self) -> bool {
        &&& 0 < self.spec_table_size() < TRIAL_SQUARE_LIMIT
        &&& self.cell_start@.len() == self.spec_table_size() + 1
        &&& forall|k: int| 0 <= k < self.spec_table_size() ==>
                #[trigger] self.cell_start@[k] <= self.cell_start@[k + 1] <= self.particle_id@.len()
    }

    /// Particles of bucket `key`.
    pub open spec fn bucket(&self, key: int) -> Seq<u32> {
        self.particle_id@.subrange(self.cell_start@[key] as int, self.cell_start@[key + 1] as int)
    }

    pub fn table_size(&self) -> (r: u32)
        ensures
            r == self.spec_table_size(),
    {
        self.table_size
    }

    pub fn new(num_particles: usize) -> (r: Self)
        requires
            has_odd_prime_from(table_seed(num_particles as nat), TRIAL_SQUARE_LIMIT as nat),
        ensures
            r.wf(),
            is_next_prime(table_seed(num_particles as nat), r.spec_table_size() as nat),
            r.cell_start@ == Seq::new(r.spec_table_size() as nat + 1, |_k: int| 0u32),
            r.particle_id@ == Seq::new(num_particles as nat, |_i: int| 0u32),
    {
        let seed: u32 = if num_particles > 15 { (num_particles * 2) as u32 } else { 31 };
        let table_size = next_prime(seed);
        let r = ParticleHash {
            table_size,
            cell_start: vec![0; table_size as usize + 1],
            particle_id: vec![0; num_particles],
        };
        proof {
            assert(r.cell_start@ =~= Seq::new(r.spec_table_size() as nat + 1, |_k: int| 0u32));
            assert(r.particle_id@ =~= Seq::new(num_particles as nat, |_i: int| 0u32));
        }
        r
    }

    /// Two-pass counting sort of the particles by the bucket of their cell;
    /// `cells[i]` is the integer cell of particle `i`.
    pub fn rebuild(&mut self, cells: &[(i32, i32, i32)])
        requires
            old(self).wf(),
            cells.len() <= u32::MAX,
        ensures
            final(self).wf(),
            final(self).spec_table_size() == old(self).spec_table_size(),
            is_bucketing(
                final(self).cell_start@,
                final(self).particle_id@,
                key_seq(cell_keys(cells@, old(self).spec_table_size())),
                old(self).spec_table_size() as nat,
            ),
    {
        let ts = self.table_size;
        let n = cells.len();
        let mut keys: Vec<u32> = Vec::new();
        let mut i: usize = 0;
        while i < n
            invariant
                0 <= i <= n,
                n == cells.len(),
                ts > 0,
                keys.len() == i,
                forall|j: int| 0 <= j < i ==> #[trigger] keys@[j] == cell_keys(cells@, ts)[j],
                forall|j: int| 0 <= j < i ==> #[trigger] keys@[j] < ts,
            decreases n - i,
        {
            let (ix, iy, iz) = cells[i];
            keys.push(hash_cell(ix, iy, iz, ts));
            i = i + 1;
        }
        proof {
            assert(keys@ =~= cell_keys(cells@, ts));
        }
        let (starts, order) = bucket_sort(&keys, ts as usize);
        self.cell_start = starts;
        self.particle_id = order;
        proof {
            let ks = key_seq(keys@);
            assert forall|j: int| 0 <= j < ks.len() implies #[trigger] ks[j] < ts as nat by {
                assert(keys@[j] < ts);
            }
            lemma_buckets_tile(self.cell_start@, self.particle_id@, ks, ts as nat);
            assert forall|k: int| 0 <= k < ts implies #[trigger] self.cell_start@[k] <= self.cell_start@[k + 1] <= self.particle_id@.len() by {
                assert(self.cell_start@[k + 1] == self.cell_start@[k] + crate::sim::counting::count_key(ks, k as nat, ks.len() as int));
                crate::sim::counting::lemma_count_below_step(ks, (k + 1) as nat, ks.len() as int);
            }
        }
    }

    /// Bucket key of the `t`-th cell of the 3x3x3 block around `cell`
    /// (x fastest, then y, then z; offsets -1, 0, 1).
    pub open spec fn neighbor_key(&self, cell: (i32, i32, i32), t: int) -> int {
        spec_hash_cell(
            (cell.0 + (t % 3 - 1)) as i32,
            (cell.1 + ((t / 3) % 3 - 1)) as i32,
            (cell.2 + (t / 9 - 1)) as i32,
            self.spec_table_size(),
        ) as int
    }

    /// Particles of the first `t` cells of the block around `cell`, bucket after bucket.
    pub open spec fn neighbor_run(&self, cell: (i32, i32, i32), t: nat) -> Seq<u32>
        decreases t,
    {
        if t == 0 {
            Seq::empty()
        } else {
            self.neighbor_run(cell, (t - 1) as nat) + self.bucket(self.neighbor_key(cell, t - 1))
        }
    }

    /// Appends the particles of bucket `key`.
    fn push_bucket(&self, out: &mut Vec<u32>, key: usize)
        requires
            self.wf(),
            key < self.spec_table_size(),
        ensures
            final(out)@ == old(out)@ + self.bucket(key as int),
    {
        let s = self.cell_start[key] as usize;
        let e = self.cell_start[key + 1] as usize;
        let ghost prefix = out@;
        let mut k: usize = s;
        proof {
            assert(prefix + self.particle_id@.subrange(s as int, s as int) =~= prefix);
        }
        while k < e
            invariant
                self.wf(),
                key < self.spec_table_size(),
                s == self.cell_start@[key as int],
                e == self.cell_start@[key + 1],
                s <= k <= e,
                e <= self.particle_id@.len(),
                out@ == prefix + self.particle_id@.subrange(s as int, k as int),
            decreases e - k,
        {
            out.push(self.particle_id[k]);
            proof {
                assert(self.particle_id@.subrange(s as int, k + 1) =~= self.particle_id@.subrange(s as int, k as int).push(self.particle_id@[k as int]));
            }
            k = k + 1;
        }
    }

    /// Every particle in the 27 cells around `cell`, bucket by bucket.
    /// Cells alias under hashing, so this may include particles outside the
    /// 3x3x3 neighborhood; callers still do an exact distance test.
    pub fn neighbor_candidates(&self, cell: (i32, i32, i32)) -> (r: Vec<u32>)
        requires
            self.wf(),
            i32::MIN < cell.0 < i32::MAX,
            i32::MIN < cell.1 < i32::MAX,
            i32::MIN < cell.2 < i32::MAX,
        ensures
            r@ == self.neighbor_run(cell, 27),
    {
        let (ix, iy, iz) = cell;
        let mut out: Vec<u32> = Vec::new();
        let mut dz: i32 = -1;
        while dz <= 1
            invariant
                self.wf(),
                cell == (ix, iy, iz),
                i32::MIN < ix < i32::MAX,
                i32::MIN < iy < i32::MAX,
                i32::MIN < iz < i32::MAX,
                -1 <= dz <= 2,
                out@ == self.neighbor_run(cell, (9 * (dz + 1)) as nat),
            decreases 2 - dz,
        {
            let mut dy: i32 = -1;
            while dy <= 1
                invariant
                    self.wf(),
                    cell == (ix, iy, iz),
                    i32::MIN < ix < i32::MAX,
                    i32::MIN < iy < i32::MAX,
                    i32::MIN < iz < i32::MAX,
                    -1 <= dz <= 1,
                    -1 <= dy <= 2,
                    out@ == self.neighbor_run(cell, (9 * (dz + 1) + 3 * (dy + 1)) as nat),
                decreases 2 - dy,
            {
                let mut dx: i32 = -1;
                while dx <= 1
                    invariant
                        self.wf(),
                        cell == (ix, iy, iz),
                        i32::MIN < ix < i32::MAX,
                        i32::MIN < iy < i32::MAX,
                        i32::MIN < iz < i32::MAX,
                        -1 <= dz <= 1,
                        -1 <= dy <= 1,
                        -1 <= dx <= 2,
                        out@ == self.neighbor_run(cell, (9 * (dz + 1) + 3 * (dy + 1) + (dx + 1)) as nat),
                    decreases 2 - dx,
                {
                    let ghost t: int = 9 * (dz + 1) + 3 * (dy + 1) + (dx + 1);
                    let key = hash_cell(ix + dx, iy + dy, iz + dz, self.table_size) as usize;
                    proof {
                        lemma_block_index(dx as int, dy as int, dz as int);
                        assert(key == self.neighbor_key(cell, t));
                    }
                    self.push_bucket(&mut out, key);
                    proof {
                        assert(out@ == self.neighbor_run(cell, (t + 1) as nat));
                    }
                    dx = dx + 1;
                }
                dy = dy + 1;
            }
            dz = dz + 1;
        }
        out
    }
}

/// A run of neighbor buckets keeps what it held as more buckets are appended.
proof fn lemma_neighbor_run_grows(h: ParticleHash, cell: (i32, i32, i32), u: nat, v: nat, x: u32)
    requires
        u <= v,
        h.neighbor_run(cell, u).contains(x),
    ensures
        h.neighbor_run(cell, v).contains(x),
    decreases v - u,
{
    if u < v {
        lemma_neighbor_run_grows(h, cell, u, (v - 1) as nat, x);
        let prev = h.neighbor_run(cell, (v - 1) as nat);
        let j = choose|j: int| 0 <= j < prev.len() && prev[j] == x;
        assert(h.neighbor_run(cell, v)[j] == x);
    }
}

/// After a rebuild from `cells`, the neighbor candidates of any cell within
/// one step (in each coordinate) of particle `i`'s cell include particle `i`:
/// hashing may add extra particles but never loses a true neighbor.
#[verifier::rlimit(50)]
pub proof fn lemma_neighbors_include_particle(
    h: ParticleHash,
    cells: Seq<(i32, i32, i32)>,
    i: int,
    cell: (i32, i32, i32),
)
    requires
        h.wf(),
        is_bucketing(h.cell_start@, h.particle_id@, key_seq(cell_keys(cells, h.table_size)), h.table_size as nat),
        0 <= i < cells.len(),
        -1 <= cells[i].0 - cell.0 <= 1,
        -1 <= cells[i].1 - cell.1 <= 1,
        -1 <= cells[i].2 - cell.2 <= 1,
    ensures
        h.neighbor_run(cell, 27).contains(i as u32),
{
    let keys = key_seq(cell_keys(cells, h.table_size));
    let dx = cells[i].0 - cell.0;
    let dy = cells[i].1 - cell.1;
    let dz = cells[i].2 - cell.2;
    let t = 9 * (dz + 1) + 3 * (dy + 1) + (dx + 1);
    lemma_block_index(dx, dy, dz);
    let k = h.neighbor_key(cell, t);
    assert(k == keys[i]);
    assert forall|j: int| 0 <= j < keys.len() implies #[trigger] keys[j] < h.table_size as nat by {
        assert(cell_keys(cells, h.table_size)[j] < h.table_size);
    }
    lemma_bucketing_places_every_item(h.cell_start@, h.particle_id@, keys, h.table_size as nat, i);
    let slot = h.cell_start@[k] + crate::sim::counting::count_key(keys, keys[i], i);
    let b = h.bucket(k);
    assert(b[slot - h.cell_start@[k]] == i as u32);
    assert(b.contains(i as u32));
    let run = h.neighbor_run(cell, (t + 1) as nat);
    let prev = h.neighbor_run(cell, t as nat);
    assert(run == prev + b);
    assert(run[prev.len() + slot - h.cell_start@[k]] == i as u32);
    lemma_neighbor_run_grows(h, cell, (t + 1) as nat, 27, i as u32);
}

} // verus!
