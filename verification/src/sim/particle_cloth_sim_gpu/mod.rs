//! Data preparation for the GPU particle-cloth solver: hash-table sizing and
//! the compressed one-ring adjacency uploaded to the device.

pub mod coloring;

use std::collections::HashSet;
use vstd::std_specs::iter::IteratorSpec;
use vstd::prelude::*;

use crate::sim::particle_cloth_sim_gpu::coloring::Coloring;
use crate::sim::particle_hash::{has_odd_prime_from, is_next_prime, lemma_trial_division, spec_is_prime};

verus! {

broadcast use vstd::std_specs::hash::group_hash_axioms;

/// `d * d`, saturated at `u32::MAX`.
pub open spec fn spec_saturating_square(d: u32) -> u32 {
    if d * d > u32::MAX { u32::MAX } else { (d * d) as u32 }
}

fn saturating_square(d: u32) -> (r: u32)
    ensures
        r == spec_saturating_square(d),
{
    if d > 65535 {
        proof {
            assert(d * d > u32::MAX) by (nonlinear_arith)
                requires
                    d > 65535,
            {
            }
        }
        u32::MAX
    } else {
        proof {
            assert(d * d <= 65535 * 65535) by (nonlinear_arith)
                requires
                    d <= 65535,
            {
            }
        }
        d * d
    }
}

/// Trial division by odd divisors up to the square root (saturating).
fn is_prime(n: u32) -> (r: bool)
    ensures
        r == spec_is_prime(n as nat),
{
    if n < 2 {
        return false;
    }
    if n % 2 == 0 {
        proof {
            if n > 2 {
                assert((n as nat) % 2 == 0);
            }
        }
        return n == 2;
    }
    let mut d: u32 = 3;
    while saturating_square(d) <= n
        invariant
            3 <= d <= 65537,
            d % 2 == 1,
            n % 2 == 1,
            n >= 3,
            forall|x: nat| 3 <= x < d && x % 2 == 1 ==> #[trigger] (n as nat % x) != 0,
        decreases 65537 - d,
    {
        if d > 65535 {
            proof {
                assert(d * d > u32::MAX) by (nonlinear_arith)
                    requires
                        d > 65535,
                {
                }
                assert(n == u32::MAX);
                assert((n as nat) % 3 == 0);
            }
        }
        if n % d == 0 {
            proof {
                assert(d < n) by (nonlinear_arith)
                    requires
                        spec_saturating_square(d) <= n,
                        d >= 3,
                        d <= 65535,
                {
                }
                assert((n as nat) % (d as nat) == 0);
            }
            return false;
        }
        d = d + 2;
    }
    proof {
        assert(d * d > n) by (nonlinear_arith)
            requires
                spec_saturating_square(d) > n,
        {
        }
        lemma_trial_division(n as nat, d as nat);
    }
    true
}

/// Least odd prime at or above `n` (2 for `n < 2`).
pub fn next_prime(n: u32) -> (r: u32)
    requires
        n < 2 || has_odd_prime_from(n as nat, 0x1_0000_0000),
    ensures
        is_next_prime(n as nat, r as nat),
{
    if n < 2 {
        return 2;
    }
    let ghost n0 = n;
    let ghost p = choose|p: nat| n0 <= p < 0x1_0000_0000 && p % 2 == 1 && #[trigger] spec_is_prime(p);
    let mut cand = n;
    if cand % 2 == 0 {
        proof {
            if cand > 2 {
                assert((cand as nat) % 2 == 0);
            }
        }
        cand = cand + 1;
    }
    loop
        invariant
            n0 == n,
            n0 <= cand <= p,
            n0 >= 2,
            cand % 2 == 1,
            p < 0x1_0000_0000,
            p % 2 == 1,
            spec_is_prime(p),
            forall|m: nat| n0 <= m < cand && m % 2 == 1 ==> !#[trigger] spec_is_prime(m),
        decreases p - cand,
    {
        if is_prime(cand) {
            return cand;
        }
        assert(cand < p);
        cand = cand + 2;
    }
}

/// Strictly increasing.
pub open spec fn strictly_increasing(s: Seq<u32>) -> bool {
    forall|a: int, b: int| 0 <= a < b < s.len() ==> #[trigger] s[a] < #[trigger] s[b]
}

/// Total number of entries in the first `m` neighbor sets.
pub open spec fn ring_total(rings: Seq<Set<u32>>, m: int) -> nat
    decreases m,
{
    if m <= 0 {
        0
    } else {
        ring_total(rings, m - 1) + rings[m - 1].len()
    }
}

/// The neighbor sets of a slice of hash sets.
pub open spec fn ring_sets(one_ring: Seq<HashSet<u32>>) -> Seq<Set<u32>> {
    one_ring.map_values(|h: HashSet<u32>| h@)
}

/// The elements of `set` in increasing order.
fn sorted_elements(set: &HashSet<u32>) -> (r: Vec<u32>)
    ensures
        strictly_increasing(r@),
        r@.to_set() == set@,
        r@.len() == set@.len(),
{
    let mut sorted: Vec<u32> = Vec::new();
    let ghost keys = set.iter().remaining().unref();
    for x in it: set.iter()
        invariant
            keys == it.seq().map_values(|r: &u32| *r),
            keys.no_duplicates(),
            keys.to_set() == set@,
            keys.len() == set@.len(),
            strictly_increasing(sorted@),
            sorted@.to_set() == keys.take(it.index() as int).to_set(),
            sorted@.len() == it.index(),
    {
        let v = *x;
        let ghost i = it.index() as int;
        assert(keys[i] == v);
        let mut pos: usize = 0;
        while pos < sorted.len() && sorted[pos] < v
            invariant
                0 <= pos <= sorted.len(),
                forall|a: int| 0 <= a < pos ==> #[trigger] sorted@[a] < v,
            decreases sorted.len() - pos,
        {
            pos = pos + 1;
        }
        proof {
            // `v` is new: the processed keys are distinct from it.
            assert(!keys.take(i).contains(v)) by {
                let shorter = keys.take(i);
                if shorter.contains(v) {
                    let j = choose|j: int| 0 <= j < shorter.len() && shorter[j] == v;
                    assert(keys[j] == keys[i]);
                }
            }
            assert(!sorted@.contains(v)) by {
                if sorted@.contains(v) {
                    let j = choose|j: int| 0 <= j < sorted@.len() && sorted@[j] == v;
                    assert(sorted@.to_set().contains(v));
                }
            }
        }
        let ghost old_sorted = sorted@;
        sorted.insert(pos, v);
        proof {
            assert(sorted@ == old_sorted.insert(pos as int, v));
            assert forall|a: int, b: int| 0 <= a < b < sorted@.len() implies #[trigger] sorted@[a] < #[trigger] sorted@[b] by {
                if pos < old_sorted.len() {
                    assert(old_sorted[pos as int] >= v);
                    assert(old_sorted[pos as int] != v);
                }
                if b < pos {
                } else if b == pos {
                    assert(sorted@[a] == old_sorted[a]);
                } else if a < pos {
                    assert(sorted@[b] == old_sorted[b - 1]);
                    if pos < old_sorted.len() {
                        assert(old_sorted[a] < old_sorted[pos as int] || a == pos);
                    }
                } else if a == pos {
                    assert(sorted@[b] == old_sorted[b - 1]);
                    assert(old_sorted[pos as int] <= old_sorted[b - 1]) by {
                        if pos < b - 1 {
                            assert(old_sorted[pos as int] < old_sorted[b - 1]);
                        }
                    }
                } else {
                    assert(sorted@[a] == old_sorted[a - 1]);
                    assert(sorted@[b] == old_sorted[b - 1]);
                }
            }
            assert(keys.take(i + 1) == keys.take(i).push(v));
            assert(sorted@.to_set() =~= old_sorted.to_set().insert(v)) by {
                assert forall|y: u32| sorted@.to_set().contains(y) <==> old_sorted.to_set().insert(v).contains(y) by {
                    if sorted@.contains(y) {
                        let j = choose|j: int| 0 <= j < sorted@.len() && sorted@[j] == y;
                        if j < pos {
                            assert(old_sorted[j] == y);
                        } else if j > pos {
                            assert(old_sorted[j - 1] == y);
                        }
                    }
                    if old_sorted.contains(y) {
                        let j = choose|j: int| 0 <= j < old_sorted.len() && old_sorted[j] == y;
                        if j < pos {
                            assert(sorted@[j] == y);
                        } else {
                            assert(sorted@[j + 1] == y);
                        }
                    }
                    if y == v {
                        assert(sorted@[pos as int] == v);
                    }
                }
            }
            assert(keys.take(i + 1).to_set() =~= keys.take(i).to_set().insert(v)) by {
                let longer = keys.take(i + 1);
                let shorter = keys.take(i);
                assert forall|y: u32| longer.contains(y) <==> (shorter.contains(y) || y == v) by {
                    if longer.contains(y) {
                        let j = choose|j: int| 0 <= j < longer.len() && longer[j] == y;
                        if j < i {
                            assert(shorter[j] == y);
                        }
                    }
                    if shorter.contains(y) {
                        let j = choose|j: int| 0 <= j < shorter.len() && shorter[j] == y;
                        assert(longer[j] == y);
                    }
                    if y == v {
                        assert(longer[i] == y);
                    }
                }
            }
        }
    }
    proof {
        assert(keys.take(keys.len() as int) == keys);
    }
    sorted
}

proof fn lemma_ring_total_mono(rings: Seq<Set<u32>>, a: int, b: int)
    requires
        0 <= a <= b,
    ensures
        ring_total(rings, a) <= ring_total(rings, b),
    decreases b,
{
    if a < b {
        lemma_ring_total_mono(rings, a, b - 1);
    }
}

/// Compressed-row form of the one-ring: `row[i]..row[i+1]` indexes into
/// `col`, which lists the neighbors of vertex `i` in increasing order.
pub open spec fn is_ring_csr(row: Seq<u32>, col: Seq<u32>, rings: Seq<Set<u32>>) -> bool {
    &&& row.len() == rings.len() + 1
    &&& row[0] == 0
    &&& (forall|i: int| 0 <= i < rings.len() ==> #[trigger] row[i + 1] == row[i] + rings[i].len())
    &&& col.len() == row[rings.len() as int]
    &&& (forall|i: int| 0 <= i < rings.len() ==> strictly_increasing(#[trigger] col.subrange(row[i] as int, row[i + 1] as int)))
    &&& (forall|i: int| 0 <= i < rings.len() ==> (#[trigger] col.subrange(row[i] as int, row[i + 1] as int)).to_set() == rings[i])
}

/// Compressed sparse rows of the one-ring neighbor sets.
pub fn build_one_ring_csr(one_ring: &[HashSet<u32>]) -> (r: (Vec<u32>, Vec<u32>))
    requires
        ring_total(ring_sets(one_ring@), one_ring@.len() as int) <= u32::MAX,
    ensures
        is_ring_csr(r.0@, r.1@, ring_sets(one_ring@)),
{
    let ghost rings = ring_sets(one_ring@);
    let n = one_ring.len();
    let mut row: Vec<u32> = Vec::new();
    let mut col: Vec<u32> = Vec::new();
    let mut acc: u32 = 0;
    row.push(0);
    let mut i: usize = 0;
    while i < n
        invariant
            n == one_ring@.len() == rings.len(),
            rings == ring_sets(one_ring@),
            ring_total(rings, n as int) <= u32::MAX,
            0 <= i <= n,
            row.len() == i + 1,
            row@[0] == 0,
            acc == row@[i as int],
            acc == ring_total(rings, i as int),
            col.len() == acc,
            forall|j: int| 0 <= j < i ==> #[trigger] row@[j + 1] == row@[j] + rings[j].len(),
            forall|j: int| 0 <= j <= i ==> #[trigger] row@[j] <= acc,
            forall|j: int| 0 <= j < i ==> strictly_increasing(#[trigger] col@.subrange(row@[j] as int, row@[j + 1] as int)),
            forall|j: int| 0 <= j < i ==> (#[trigger] col@.subrange(row@[j] as int, row@[j + 1] as int)).to_set() == rings[j],
        decreases n - i,
    {
        let sorted = sorted_elements(&one_ring[i]);
        proof {
            assert(rings[i as int] == one_ring@[i as int]@);
            lemma_ring_total_mono(rings, i + 1, n as int);
        }
        let ghost old_col = col@;
        let len = sorted.len();
        let mut t: usize = 0;
        while t < len
            invariant
                len == sorted.len(),
                0 <= t <= len,
                col@ == old_col + sorted@.take(t as int),
            decreases len - t,
        {
            col.push(sorted[t]);
            proof {
                assert(sorted@.take(t + 1) == sorted@.take(t as int).push(sorted@[t as int]));
            }
            t = t + 1;
        }
        proof {
            assert(sorted@.take(len as int) == sorted@);
        }
        acc = acc + len as u32;
        row.push(acc);
        proof {
            assert(col@.subrange(row@[i as int] as int, row@[i + 1] as int) =~= sorted@);
            assert forall|j: int| 0 <= j < i implies (#[trigger] col@.subrange(row@[j] as int, row@[j + 1] as int)) == old_col.subrange(row@[j] as int, row@[j + 1] as int) by {
                assert(col@.subrange(row@[j] as int, row@[j + 1] as int) =~= old_col.subrange(row@[j] as int, row@[j + 1] as int));
            }
        }
        i = i + 1;
    }
    (row, col)
}

/// Workgroups of `group` threads that cover `invocations` threads.
pub open spec fn spec_dispatch_count(invocations: nat, group: nat) -> nat {
    if invocations == 0 { 0 } else { ((invocations + group - 1) as int / group as int) as nat }
}

/// The number of workgroups of `group` threads a dispatch over
/// `invocations` threads needs: the fewest whose threads cover them all.
pub fn dispatch_count(invocations: u32, group: u32) -> (r: u32)
    requires
        invocations == 0 || (group > 0 && invocations + group <= u32::MAX),
    ensures
        r == spec_dispatch_count(invocations as nat, group as nat),
        r * group >= invocations,
        r == 0 || (r - 1) * group < invocations,
{
    if invocations == 0 {
        0
    } else {
        let r = (invocations + group - 1) / group;
        proof {
            let n = invocations as int;
            let g = group as int;
            let q = (n + g - 1) / g;
            assert(q * g <= n + g - 1 < q * g + g) by (nonlinear_arith)
                requires
                    g > 0,
                    q == (n + g - 1) / g,
                    n + g - 1 >= 0,
            {
            }
            assert(q * g >= n);
            assert((q - 1) * g == q * g - g) by (nonlinear_arith);
        }
        r
    }
}

/// For the first `m` colour classes, in colour order, the nonempty ones:
/// their first slot, their size and the workgroups of `group` threads they
/// need.
pub open spec fn class_dispatches(offsets: Seq<u32>, group: nat, m: int) -> Seq<(u32, u32, u32)>
    decreases m,
{
    if m <= 0 {
        Seq::empty()
    } else {
        let prev = class_dispatches(offsets, group, m - 1);
        let base = offsets[m - 1];
        let size = (offsets[m] - base) as nat;
        if size == 0 {
            prev
        } else {
            prev.push((base, size as u32, spec_dispatch_count(size, group) as u32))
        }
    }
}

/// The dispatches of the per-colour passes: one per nonempty colour class,
/// in colour order, with the class's first slot in `idx`, its size and the
/// workgroups of `group` threads it needs.
pub fn color_dispatches(c: &Coloring, group: u32) -> (r: Vec<(u32, u32, u32)>)
    requires
        group > 0,
        forall|i: int, j: int| 0 <= i <= j < c.offsets@.len() ==> #[trigger] c.offsets@[i] <= #[trigger] c.offsets@[j],
        c.offsets@.len() == 0 || c.offsets@.last() + group <= u32::MAX,
    ensures
        r@ == class_dispatches(c.offsets@, group as nat, c.spec_num_colors() as int),
{
    let nc = c.num_colors();
    let mut out: Vec<(u32, u32, u32)> = Vec::new();
    let mut k: usize = 0;
    while k < nc
        invariant
            nc == c.spec_num_colors(),
            0 <= k <= nc,
            group > 0,
            forall|i: int, j: int| 0 <= i <= j < c.offsets@.len() ==> #[trigger] c.offsets@[i] <= #[trigger] c.offsets@[j],
            c.offsets@.len() == 0 || c.offsets@.last() + group <= u32::MAX,
            out@ == class_dispatches(c.offsets@, group as nat, k as int),
        decreases nc - k,
    {
        let base = c.offsets[k];
        let top = c.offsets[k + 1];
        assert(c.offsets@[k as int] <= c.offsets@[k + 1]);
        assert(c.offsets@[k + 1] <= c.offsets@.last());
        let size = top - base;
        if size != 0 {
            let groups = dispatch_count(size, group);
            out.push((base, size, groups));
        }
        k = k + 1;
    }
    out
}

} // verus!
