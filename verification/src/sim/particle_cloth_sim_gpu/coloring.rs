//! Greedy graph coloring for distance constraints.
//!
//! Two constraints are adjacent iff they share a vertex. Within a single color
//! class, no two constraints touch the same vertex, so a parallel kernel can
//! update both endpoints with plain (non-atomic) stores and remain race-free.

use vstd::prelude::*;
use vstd::std_specs::bits::*;

use crate::sim::counting::{
    bucket_sort, count_key, is_bucketing, key_seq, lemma_bucketing_places_every_item, lemma_buckets_tile,
};

verus! {

broadcast use vstd::std_specs::bits::axiom_u64_trailing_zeros;

/// Number of colors a vertex bitmask can hold.
pub const MAX_COLORS: u64 = 64;

/// Constraints `j` and `i` touch a common vertex.
pub open spec fn conflicts(ep: Seq<Seq<u32>>, j: int, i: int) -> bool {
    exists|v: u32| #[trigger] ep[j].contains(v) && ep[i].contains(v)
}

/// Color `k` is already taken by a constraint before `i` that touches a
/// vertex of constraint `i`, given the colors `colors` of those earlier ones.
pub open spec fn color_used(ep: Seq<Seq<u32>>, colors: Seq<nat>, i: int, k: nat) -> bool {
    exists|j: int| 0 <= j < i && #[trigger] colors[j] == k && conflicts(ep, j, i)
}

/// The lowest color at or above `k` (and below the mask width) that constraint
/// `i` may take; the mask width itself when every such color is taken.
pub open spec fn lowest_free(ep: Seq<Seq<u32>>, colors: Seq<nat>, i: int, k: nat) -> nat
    decreases 64 - k,
{
    if k >= 64 {
        64
    } else if !color_used(ep, colors, i, k) {
        k
    } else {
        lowest_free(ep, colors, i, k + 1)
    }
}

/// Colors given by the greedy pass to the first `n` constraints, in order:
/// each takes the lowest color not used by an earlier constraint it touches.
pub open spec fn greedy_colors(ep: Seq<Seq<u32>>, n: nat) -> Seq<nat>
    decreases n,
{
    if n == 0 {
        Seq::empty()
    } else {
        let prev = greedy_colors(ep, (n - 1) as nat);
        prev.push(lowest_free(ep, prev, n - 1, 0))
    }
}

/// The greedy color of every constraint.
pub open spec fn greedy_coloring(ep: Seq<Seq<u32>>) -> Seq<nat> {
    greedy_colors(ep, ep.len())
}

/// The greedy pass never runs out of the mask's colors.
pub open spec fn fits_in_mask(ep: Seq<Seq<u32>>) -> bool {
    forall|i: int| 0 <= i < ep.len() ==> #[trigger] greedy_coloring(ep)[i] < 64
}

/// Every vertex named by a constraint is below `num_verts`.
pub open spec fn vertices_below(ep: Seq<Seq<u32>>, num_verts: nat) -> bool {
    forall|i: int, t: int| 0 <= i < ep.len() && 0 <= t < ep[i].len() ==> #[trigger] ep[i][t] < num_verts
}

pub open spec fn bit(m: u64, k: nat) -> bool {
    (m >> (k as u64)) & 1 == 1
}

proof fn lemma_bit_or(a: u64, b: u64, k: u64)
    by (bit_vector)
    requires
        k < 64,
    ensures
        ((a | b) >> k) & 1 == 1 <==> ((a >> k) & 1 == 1 || (b >> k) & 1 == 1),
{
}

proof fn lemma_bit_single(c: u64, k: u64)
    by (bit_vector)
    requires
        c < 64,
        k < 64,
    ensures
        ((1u64 << c) >> k) & 1 == 1 <==> k == c,
{
}

proof fn lemma_bit_not(x: u64, k: u64)
    by (bit_vector)
    requires
        k < 64,
    ensures
        ((!x) >> k) & 1 == 1 <==> !((x >> k) & 1 == 1),
{
}

proof fn lemma_bit_zero(k: u64)
    by (bit_vector)
    requires
        k < 64,
    ensures
        !((0u64 >> k) & 1 == 1),
{
}

proof fn lemma_zero_no_bits()
    ensures
        forall|k: nat| k < 64 ==> !#[trigger] bit(0u64, k),
{
    assert forall|k: nat| k < 64 implies !#[trigger] bit(0u64, k) by {
        lemma_bit_zero(k as u64);
    }
}

proof fn lemma_greedy_len(ep: Seq<Seq<u32>>, n: nat)
    ensures
        greedy_colors(ep, n).len() == n,
    decreases n,
{
    if n > 0 {
        lemma_greedy_len(ep, (n - 1) as nat);
    }
}

/// The colors of a prefix do not depend on the constraints after it.
proof fn lemma_greedy_prefix(ep: Seq<Seq<u32>>, m: nat, n: nat)
    requires
        m <= n,
    ensures
        forall|j: int| 0 <= j < m ==> #[trigger] greedy_colors(ep, n)[j] == greedy_colors(ep, m)[j],
    decreases n,
{
    lemma_greedy_len(ep, n);
    lemma_greedy_len(ep, m);
    if m < n {
        lemma_greedy_prefix(ep, m, (n - 1) as nat);
        lemma_greedy_len(ep, (n - 1) as nat);
        assert forall|j: int| 0 <= j < m implies #[trigger] greedy_colors(ep, n)[j] == greedy_colors(ep, m)[j] by {
            assert(greedy_colors(ep, n)[j] == greedy_colors(ep, (n - 1) as nat)[j]);
        }
    }
}

/// When colors `k..t` are taken and `t` is free (or `t` is the mask width),
/// the lowest free color from `k` is `t`.
proof fn lemma_lowest_free_is(ep: Seq<Seq<u32>>, colors: Seq<nat>, i: int, k: nat, t: nat)
    requires
        k <= t <= 64,
        forall|j: nat| k <= j < t ==> color_used(ep, colors, i, j),
        t < 64 ==> !color_used(ep, colors, i, t),
    ensures
        lowest_free(ep, colors, i, k) == t,
    decreases 64 - k,
{
    if k < t {
        lemma_lowest_free_is(ep, colors, i, k + 1, t);
    }
}

/// A lowest free color below the mask width is free.
proof fn lemma_lowest_free_free(ep: Seq<Seq<u32>>, colors: Seq<nat>, i: int, k: nat)
    requires
        lowest_free(ep, colors, i, k) < 64,
    ensures
        !color_used(ep, colors, i, lowest_free(ep, colors, i, k)),
        k <= lowest_free(ep, colors, i, k),
    decreases 64 - k,
{
    if k < 64 && color_used(ep, colors, i, k) {
        lemma_lowest_free_free(ep, colors, i, k + 1);
    }
}

pub struct Coloring {
    /// Constraint indices reordered so that all constraints of color `k` form
    /// the contiguous slice `idx[offsets[k]..offsets[k+1]]`.
    pub idx: Vec<u32>,
    /// Length `num_colors + 1`. `offsets[0] == 0`, `offsets.last() == idx.len()`.
    pub offsets: Vec<u32>,
}

impl Coloring {
    /// Number of color classes.
    pub open spec fn spec_num_colors(&self) -> nat {
        if self.offsets@.len() == 0 { 0 } else { (self.offsets@.len() - 1) as nat }
    }

    pub fn num_colors(&self) -> (r: usize)
        ensures
            r == self.spec_num_colors(),
    {
        self.offsets.len().saturating_sub(1)
    }
}

/// `c` groups the constraints by the colors `gc`: classes `0..nc` where
/// every color is below `nc` and (when there is a constraint) the top one is
/// used; class `k` lists, in increasing order, exactly the constraints of
/// color `k`, as the slice `idx[offsets[k]..offsets[k+1]]`.
pub open spec fn groups_colors(c: Coloring, gc: Seq<nat>) -> bool {
    let n = gc.len();
    let nc = c.offsets@.len() - 1;
    &&& c.offsets@.len() >= 1
    &&& (n == 0 ==> c.offsets@.len() == 1)
    &&& (forall|i: int| 0 <= i < n ==> #[trigger] gc[i] < nc)
    &&& (n > 0 ==> exists|i: int| 0 <= i < n && #[trigger] gc[i] == nc - 1)
    &&& is_bucketing(c.offsets@, c.idx@, gc, nc as nat)
}

/// `c` is the greedy coloring of the constraints `ep`, grouped by color.
pub open spec fn is_greedy_coloring(c: Coloring, ep: Seq<Seq<u32>>) -> bool {
    groups_colors(c, greedy_coloring(ep))
}

/// Greedy color assignment: the color of every constraint and the highest one.
fn assign_colors(endpoints: &[&[u32]], num_verts: usize) -> (r: (Vec<u32>, u32))
    requires
        endpoints.len() > 0,
        fits_in_mask(endpoints.deep_view()),
        vertices_below(endpoints.deep_view(), num_verts as nat),
    ensures
        r.0.len() == endpoints.len(),
        forall|i: int| 0 <= i < endpoints.len() ==> #[trigger] r.0@[i] as nat == greedy_coloring(endpoints.deep_view())[i],
        forall|i: int| 0 <= i < endpoints.len() ==> r.0@[i] <= r.1,
        exists|i: int| 0 <= i < endpoints.len() && r.0@[i] == r.1,
{
    let ghost ep = endpoints.deep_view();
    let n_con = endpoints.len();
    let mut vert_mask: Vec<u64> = vec![0; num_verts];
    let mut color_of: Vec<u32> = vec![0; n_con];
    let mut max_color: u32 = 0;
    let ghost mut wit: int = 0;
    proof {
        lemma_greedy_len(ep, ep.len());
    }
    proof {
        lemma_zero_no_bits();
        assert forall|v: u32, k: nat| v < num_verts && k < 64 implies
            !#[trigger] bit(vert_mask@[v as int], k) by {
            assert(vert_mask@[v as int] == 0);
        }
    }
    let mut ci: usize = 0;
    while ci < n_con
        invariant
            n_con == endpoints.len() == ep.len(),
            n_con > 0,
            ep == endpoints.deep_view(),
            fits_in_mask(ep),
            vertices_below(ep, num_verts as nat),
            0 <= ci <= n_con,
            vert_mask.len() == num_verts,
            color_of.len() == n_con,
            greedy_colors(ep, ci as nat).len() == ci,
            forall|j: int| 0 <= j < ci ==> #[trigger] color_of@[j] as nat == greedy_colors(ep, ci as nat)[j],
            forall|v: u32, k: nat| v < num_verts && k < 64 ==>
                (#[trigger] bit(vert_mask@[v as int], k) <==> exists|j: int| 0 <= j < ci
                    && #[trigger] greedy_colors(ep, ci as nat)[j] == k && ep[j].contains(v)),
            forall|j: int| 0 <= j < ci ==> color_of@[j] <= max_color,
            ci > 0 ==> 0 <= wit < ci && color_of@[wit] == max_color,
        decreases n_con - ci,
    {
        let ghost prev = greedy_colors(ep, ci as nat);
        let ghost cur = ep[ci as int];
        let row: &[u32] = endpoints[ci];
        assert(row@ == cur);
        let mut used: u64 = 0;
        proof {
            lemma_zero_no_bits();
        }
        let mut t: usize = 0;
        while t < row.len()
            invariant
                row@ == cur,
                cur == ep[ci as int],
                0 <= t <= row.len(),
                vert_mask.len() == num_verts,
                vertices_below(ep, num_verts as nat),
                0 <= ci < ep.len(),
                forall|k: nat| k < 64 ==> (#[trigger] bit(used, k) <==> exists|t2: int| 0 <= t2 < t
                    && bit(vert_mask@[cur[t2] as int], k)),
            decreases row.len() - t,
        {
            let v = row[t];
            assert(v < num_verts) by { assert(ep[ci as int][t as int] == v); }
            let m = vert_mask[v as usize];
            proof {
                assert forall|k: nat| k < 64 implies (#[trigger] bit(used | m, k) <==> exists|t2: int| 0 <= t2 < t + 1
                    && bit(vert_mask@[cur[t2] as int], k)) by {
                    lemma_bit_or(used, m, k as u64);
                    assert(cur[t as int] == v);
                    assert(vert_mask@[cur[t as int] as int] == m);
                    if bit(m, k) {
                        assert(bit(vert_mask@[cur[t as int] as int], k));
                    }
                    if exists|t2: int| 0 <= t2 < t + 1 && bit(vert_mask@[cur[t2] as int], k) {
                        let t2 = choose|t2: int| 0 <= t2 < t + 1 && bit(vert_mask@[cur[t2] as int], k);
                        if t2 < t {
                            assert(bit(used, k));
                        }
                        assert(bit(used | m, k));
                    }
                    if bit(used, k) {
                        let t2 = choose|t2: int| 0 <= t2 < t && bit(vert_mask@[cur[t2] as int], k);
                        assert(0 <= t2 < t + 1 && bit(vert_mask@[cur[t2] as int], k));
                    }
                }
            }
            used = used | m;
            t = t + 1;
        }
        proof {
            // Bits of `used` are exactly the colors taken by touching earlier constraints.
            assert forall|k: nat| k < 64 implies (bit(used, k) <==> color_used(ep, prev, ci as int, k)) by {
                if bit(used, k) {
                    let t2 = choose|t2: int| 0 <= t2 < row.len() && bit(vert_mask@[cur[t2] as int], k);
                    let v = cur[t2];
                    assert(ep[ci as int][t2] == v);
                    let j = choose|j: int| 0 <= j < ci && #[trigger] greedy_colors(ep, ci as nat)[j] == k
                        && ep[j].contains(v as u32);
                    assert(ep[ci as int].contains(v));
                    assert(conflicts(ep, j, ci as int));
                    assert(prev[j] == k);
                }
                if color_used(ep, prev, ci as int, k) {
                    let j = choose|j: int| 0 <= j < ci && #[trigger] prev[j] == k && conflicts(ep, j, ci as int);
                    let v = choose|v: u32| #[trigger] ep[j].contains(v) && ep[ci as int].contains(v);
                    let t2 = choose|t2: int| 0 <= t2 < cur.len() && cur[t2] == v;
                    assert(v < num_verts) by { assert(ep[ci as int][t2] == v); }
                    assert(bit(vert_mask@[v as int], k));
                    assert(bit(vert_mask@[cur[t2] as int], k));
                }
            }
        }
        let c: u32 = (!used).trailing_zeros();
        proof {
            let tz = u64_trailing_zeros(!used);
            assert forall|j: nat| j < tz implies color_used(ep, prev, ci as int, j) by {
                let ju = j as u64;
                assert(((!used) >> ju) & 1u64 == 0u64);
                lemma_bit_not(used, ju);
                assert(bit(used, j));
            }
            if tz < 64 {
                assert(((!used) >> (tz as u64)) & 1u64 == 1u64);
                lemma_bit_not(used, tz as u64);
                assert(!bit(used, tz as nat));
            }
            lemma_lowest_free_is(ep, prev, ci as int, 0, tz as nat);
            lemma_greedy_prefix(ep, (ci + 1) as nat, ep.len());
            lemma_greedy_len(ep, ep.len());
            assert(greedy_colors(ep, (ci + 1) as nat) == prev.push(lowest_free(ep, prev, ci as int, 0)));
            assert(greedy_coloring(ep)[ci as int] == greedy_colors(ep, (ci + 1) as nat)[ci as int]);
        }
        let ghost c_spec = greedy_colors(ep, (ci + 1) as nat);
        assert(c < 64);
        let bitv: u64 = 1u64 << (c as u64);
        let mut t: usize = 0;
        let ghost mask0 = vert_mask@;
        while t < row.len()
            invariant
                row@ == cur,
                cur == ep[ci as int],
                0 <= t <= row.len(),
                c < 64,
                bitv == 1u64 << (c as u64),
                vert_mask.len() == num_verts,
                mask0.len() == num_verts,
                vertices_below(ep, num_verts as nat),
                0 <= ci < ep.len(),
                forall|v: u32, k: nat| v < num_verts && k < 64 ==>
                    (#[trigger] bit(vert_mask@[v as int], k) <==> (bit(mask0[v as int], k)
                        || (k == c && exists|t2: int| 0 <= t2 < t && cur[t2] == v))),
            decreases row.len() - t,
        {
            let v = row[t];
            assert(v < num_verts) by { assert(ep[ci as int][t as int] == v); }
            let m = vert_mask[v as usize];
            let ghost before = vert_mask@;
            vert_mask.set(v as usize, m | bitv);
            proof {
                assert forall|w: u32, k: nat| w < num_verts && k < 64 implies
                    (#[trigger] bit(vert_mask@[w as int], k) <==> (bit(mask0[w as int], k)
                        || (k == c && exists|t2: int| 0 <= t2 < t + 1 && cur[t2] == w))) by {
                    assert(cur[t as int] == v);
                    if w == v {
                        lemma_bit_or(m, bitv, k as u64);
                        lemma_bit_single(c as u64, k as u64);
                        assert(bit(before[w as int], k) <==> (bit(mask0[w as int], k)
                            || (k == c && exists|t2: int| 0 <= t2 < t && cur[t2] == w)));
                        if k == c {
                            assert(bit(vert_mask@[w as int], k));
                        }
                        if bit(vert_mask@[w as int], k) && !bit(mask0[w as int], k) && k != c {
                            assert(bit(m, k));
                        }
                    } else {
                        assert(vert_mask@[w as int] == before[w as int]);
                        if k == c && exists|t2: int| 0 <= t2 < t + 1 && cur[t2] == w {
                            let t2 = choose|t2: int| 0 <= t2 < t + 1 && cur[t2] == w;
                            assert(t2 != t);
                        }
                    }
                }
            }
            t = t + 1;
        }
        proof {
            lemma_greedy_len(ep, (ci + 1) as nat);
            assert(c_spec[ci as int] == c as nat);
            assert forall|v: u32, k: nat| v < num_verts && k < 64 implies
                (#[trigger] bit(vert_mask@[v as int], k) <==> exists|j: int| 0 <= j < ci + 1
                    && #[trigger] c_spec[j] == k && ep[j].contains(v)) by {
                if bit(vert_mask@[v as int], k) {
                    if bit(mask0[v as int], k) {
                        let j = choose|j: int| 0 <= j < ci && #[trigger] greedy_colors(ep, ci as nat)[j] == k
                            && ep[j].contains(v);
                        assert(c_spec[j] == prev[j]);
                    } else {
                        let t2 = choose|t2: int| 0 <= t2 < row.len() && cur[t2] == v;
                        assert(ep[ci as int].contains(v));
                        assert(c_spec[ci as int] == k);
                    }
                }
                if exists|j: int| 0 <= j < ci + 1 && #[trigger] c_spec[j] == k && ep[j].contains(v) {
                    let j = choose|j: int| 0 <= j < ci + 1 && #[trigger] c_spec[j] == k && ep[j].contains(v);
                    if j < ci {
                        assert(c_spec[j] == prev[j]);
                        assert(bit(mask0[v as int], k));
                    } else {
                        let t2 = choose|t2: int| 0 <= t2 < cur.len() && cur[t2] == v;
                        assert(0 <= t2 < row.len() && cur[t2] == v);
                    }
                }
            }
        }
        color_of.set(ci, c);
        if c > max_color || ci == 0 {
            max_color = c;
            proof {
                wit = ci as int;
            }
        }
        proof {
            assert forall|j: int| 0 <= j < ci + 1 implies #[trigger] color_of@[j] as nat == c_spec[j] by {
                if j < ci {
                    assert(c_spec[j] == prev[j]);
                }
            }
        }
        ci = ci + 1;
    }
    proof {
        lemma_greedy_len(ep, ep.len());
        assert(0 <= wit < n_con && color_of@[wit] == max_color);
        assert(exists|i: int| 0 <= i < endpoints.len() && color_of@[i] == max_color);
    }
    (color_of, max_color)
}

/// Greedy coloring of a constraint set whose dependency is "shares a vertex".
///
/// `endpoints[i]` lists every vertex touched by constraint `i`. For an edge
/// pass this is the two edge vertices; for the bend pass it is the two
/// diamond diagonal vertices `[c, d]`.
pub fn color_constraints(endpoints: &[&[u32]], num_verts: usize) -> (r: Coloring)
    requires
        endpoints.len() <= u32::MAX,
        fits_in_mask(endpoints.deep_view()),
        vertices_below(endpoints.deep_view(), num_verts as nat),
    ensures
        is_greedy_coloring(r, endpoints.deep_view()),
{
    let n_con = endpoints.len();
    if n_con == 0 {
        let r = Coloring { idx: Vec::new(), offsets: vec![0] };
        proof {
            lemma_greedy_len(endpoints.deep_view(), 0);
        }
        return r;
    }
    let ghost gc = greedy_coloring(endpoints.deep_view());
    let (color_of, max_color) = assign_colors(endpoints, num_verts);
    proof {
        lemma_greedy_len(endpoints.deep_view(), n_con as nat);
        let w = choose|i: int| 0 <= i < endpoints.len() && color_of@[i] == max_color;
        assert(gc[w] < 64);
    }
    let num_colors = (max_color + 1) as usize;
    let (offsets, idx) = bucket_sort(&color_of, num_colors);
    let r = Coloring { idx, offsets };
    proof {
        assert(key_seq(color_of@) =~= gc);
        let w = choose|i: int| 0 <= i < endpoints.len() && color_of@[i] == max_color;
        assert(gc[w] == num_colors - 1);
    }
    r
}

/// The two vertices of each edge, as constraint endpoint lists.
pub open spec fn edge_endpoints(edges: Seq<[u32; 2]>) -> Seq<Seq<u32>> {
    edges.map_values(|e: [u32; 2]| e@)
}

/// The diagonal `[c, d]` of each diamond, as constraint endpoint lists.
pub open spec fn bend_endpoints(diamonds: Seq<[u32; 4]>) -> Seq<Seq<u32>> {
    diamonds.map_values(|d: [u32; 4]| seq![d[2], d[3]])
}

/// Convenience for edges (pairs).
pub fn color_edges(edges: &[[u32; 2]], num_verts: usize) -> (r: Coloring)
    requires
        edges.len() <= u32::MAX,
        fits_in_mask(edge_endpoints(edges@)),
        vertices_below(edge_endpoints(edges@), num_verts as nat),
    ensures
        is_greedy_coloring(r, edge_endpoints(edges@)),
{
    let mut pairs: Vec<Vec<u32>> = Vec::new();
    let mut i: usize = 0;
    while i < edges.len()
        invariant
            0 <= i <= edges.len(),
            pairs.len() == i,
            forall|j: int| 0 <= j < i ==> #[trigger] pairs@[j]@ == edges@[j]@,
        decreases edges.len() - i,
    {
        let e = edges[i];
        let mut p: Vec<u32> = Vec::new();
        p.push(e[0]);
        p.push(e[1]);
        proof {
            assert(p@ =~= e@);
        }
        pairs.push(p);
        i = i + 1;
    }
    let mut refs: Vec<&[u32]> = Vec::new();
    let mut i: usize = 0;
    while i < pairs.len()
        invariant
            0 <= i <= pairs.len(),
            pairs.len() == edges.len(),
            refs.len() == i,
            forall|j: int| 0 <= j < pairs.len() ==> #[trigger] pairs@[j]@ == edges@[j]@,
            forall|j: int| 0 <= j < i ==> #[trigger] refs@[j]@ == edges@[j]@,
        decreases pairs.len() - i,
    {
        refs.push(pairs[i].as_slice());
        i = i + 1;
    }
    let slice = refs.as_slice();
    proof {
        assert forall|j: int| 0 <= j < edges.len() implies #[trigger] slice.deep_view()[j] == edge_endpoints(edges@)[j] by {
            assert(slice@[j]@ == edges@[j]@);
            assert(slice.deep_view()[j] =~= slice@[j]@);
        }
        assert(slice.deep_view() =~= edge_endpoints(edges@));
    }
    color_constraints(slice, num_verts)
}

/// Convenience for diamond bend constraints (only `[c, d]` matter).
pub fn color_bend(diamonds: &[[u32; 4]], num_verts: usize) -> (r: Coloring)
    requires
        diamonds.len() <= u32::MAX,
        fits_in_mask(bend_endpoints(diamonds@)),
        vertices_below(bend_endpoints(diamonds@), num_verts as nat),
    ensures
        is_greedy_coloring(r, bend_endpoints(diamonds@)),
{
    let mut pairs: Vec<[u32; 2]> = Vec::new();
    let mut i: usize = 0;
    while i < diamonds.len()
        invariant
            0 <= i <= diamonds.len(),
            pairs.len() == i,
            forall|j: int| 0 <= j < i ==> #[trigger] pairs@[j]@ == seq![diamonds@[j][2], diamonds@[j][3]],
        decreases diamonds.len() - i,
    {
        let d = diamonds[i];
        let pair: [u32; 2] = [d[2], d[3]];
        proof {
            assert(pair@ =~= seq![d[2], d[3]]);
        }
        pairs.push(pair);
        i = i + 1;
    }
    let slice = pairs.as_slice();
    proof {
        assert(edge_endpoints(slice@) =~= bend_endpoints(diamonds@));
    }
    color_edges(slice, num_verts)
}

/// The four vertices of each hinge, as constraint endpoint lists.
pub open spec fn hinge_endpoints(hinges: Seq<[u32; 4]>) -> Seq<Seq<u32>> {
    hinges.map_values(|h: [u32; 4]| h@)
}

/// Convenience for the four-vertex dihedral hinge constraints
/// `[a, b, c, d]`: all four vertices matter.
pub fn color_hinges(hinges: &[[u32; 4]], num_verts: usize) -> (r: Coloring)
    requires
        hinges.len() <= u32::MAX,
        fits_in_mask(hinge_endpoints(hinges@)),
        vertices_below(hinge_endpoints(hinges@), num_verts as nat),
    ensures
        is_greedy_coloring(r, hinge_endpoints(hinges@)),
{
    let mut refs: Vec<&[u32]> = Vec::new();
    let mut i: usize = 0;
    while i < hinges.len()
        invariant
            0 <= i <= hinges.len(),
            refs.len() == i,
            forall|j: int| 0 <= j < i ==> #[trigger] refs@[j]@ == hinges@[j]@,
        decreases hinges.len() - i,
    {
        refs.push(hinges[i].as_slice());
        i = i + 1;
    }
    let slice = refs.as_slice();
    proof {
        assert forall|j: int| 0 <= j < hinges.len() implies #[trigger] slice.deep_view()[j] == hinge_endpoints(hinges@)[j] by {
            assert(slice@[j]@ == hinges@[j]@);
            assert(slice.deep_view()[j] =~= slice@[j]@);
        }
        assert(slice.deep_view() =~= hinge_endpoints(hinges@));
    }
    color_constraints(slice, num_verts)
}

/// Endpoint `p` of the constraint at slot `s` exists and the slot lies in class `k`.
pub open spec fn class_pos(c: Coloring, ep: Seq<Seq<u32>>, k: int, s: int, p: int) -> bool {
    &&& c.offsets@[k] <= s < c.offsets@[k + 1]
    &&& 0 <= p < ep[c.idx@[s] as int].len()
}

/// The vertex at endpoint `p` of the constraint at slot `s`.
pub open spec fn slot_vertex(c: Coloring, ep: Seq<Seq<u32>>, s: int, p: int) -> u32 {
    ep[c.idx@[s] as int][p]
}

/// Slot-major order on (slot, endpoint) positions.
pub open spec fn pos_before(s1: int, p1: int, s2: int, p2: int) -> bool {
    s1 < s2 || (s1 == s2 && p1 < p2)
}

/// Two distinct positions of class `k`, both before `(s, p)`, name one vertex.
pub open spec fn repeat_before(c: Coloring, ep: Seq<Seq<u32>>, k: int, s: int, p: int) -> bool {
    exists|s1: int, p1: int, s2: int, p2: int|
        #![trigger slot_vertex(c, ep, s1, p1), slot_vertex(c, ep, s2, p2)]
        class_pos(c, ep, k, s1, p1) && class_pos(c, ep, k, s2, p2) && pos_before(s1, p1, s2, p2)
            && pos_before(s2, p2, s, p) && slot_vertex(c, ep, s1, p1) == slot_vertex(c, ep, s2, p2)
}

/// Class `k` names some vertex twice (two constraints of the class share a
/// vertex, or one constraint lists a vertex twice).
pub open spec fn class_repeats(c: Coloring, ep: Seq<Seq<u32>>, k: int) -> bool {
    repeat_before(c, ep, k, c.offsets@[k + 1] as int, 0)
}

/// Every color class is a true independent set.
pub open spec fn classes_independent(c: Coloring, ep: Seq<Seq<u32>>) -> bool {
    forall|k: int| 0 <= k < c.spec_num_colors() ==> !#[trigger] class_repeats(c, ep, k)
}

/// The class slices, the constraints they name and those constraints'
/// vertices are all in range.
pub open spec fn classes_in_range(c: Coloring, ep: Seq<Seq<u32>>, num_verts: nat) -> bool {
    &&& c.offsets@.len() < u32::MAX
    &&& forall|k: int| 0 <= k < c.spec_num_colors() ==>
            #[trigger] c.offsets@[k] <= c.offsets@[k + 1] <= c.idx@.len()
    &&& forall|k: int, s: int| #![trigger c.offsets@[k], c.idx@[s]]
            0 <= k < c.spec_num_colors() && c.offsets@[k] <= s < c.offsets@[k + 1] ==>
            c.idx@[s] < ep.len()
                && forall|p: int| 0 <= p < ep[c.idx@[s] as int].len() ==> #[trigger] ep[c.idx@[s] as int][p] < num_verts
}

/// A vertex at a position of class `k` before `(s, p)`.
pub open spec fn seen_before(c: Coloring, ep: Seq<Seq<u32>>, k: int, s: int, p: int, v: u32) -> bool {
    exists|s1: int, p1: int| #![trigger slot_vertex(c, ep, s1, p1)]
        class_pos(c, ep, k, s1, p1) && pos_before(s1, p1, s, p) && slot_vertex(c, ep, s1, p1) == v
}

/// Checks that every color class is a true independent set: no vertex is
/// named twice within one class. A coloring whose classes are not is a
/// caller error and is left out by the `requires`; the check itself is the
/// proof obligation that no repeat is found.
pub fn validate(coloring: &Coloring, endpoints: &[&[u32]], num_verts: usize)
    requires
        classes_in_range(*coloring, endpoints.deep_view(), num_verts as nat),
        classes_independent(*coloring, endpoints.deep_view()),
{
    let independent = classes_are_independent(coloring, endpoints, num_verts);
    assert(independent);
}

/// Whether every color class is a true independent set, by marking the
/// vertices of each class in turn.
fn classes_are_independent(coloring: &Coloring, endpoints: &[&[u32]], num_verts: usize) -> (r: bool)
    requires
        classes_in_range(*coloring, endpoints.deep_view(), num_verts as nat),
    ensures
        r == classes_independent(*coloring, endpoints.deep_view()),
{
    let ghost c = *coloring;
    let ghost ep = endpoints.deep_view();
    let mut touched: Vec<u32> = vec![u32::MAX; num_verts];
    let nc = coloring.num_colors();
    let mut k: usize = 0;
    while k < nc
        invariant
            c == *coloring,
            ep == endpoints.deep_view(),
            classes_in_range(c, ep, num_verts as nat),
            nc == c.spec_num_colors(),
            0 <= k <= nc,
            touched.len() == num_verts,
            forall|v: int| 0 <= v < num_verts ==> #[trigger] touched@[v] == u32::MAX || touched@[v] < k,
            forall|k2: int| 0 <= k2 < k ==> !#[trigger] class_repeats(c, ep, k2),
        decreases nc - k,
    {
        let start = coloring.offsets[k] as usize;
        let end = coloring.offsets[k + 1] as usize;
        let kk = k as u32;
        let mut s: usize = start;
        while s < end
            invariant
                c == *coloring,
                ep == endpoints.deep_view(),
                classes_in_range(c, ep, num_verts as nat),
                nc == c.spec_num_colors(),
                0 <= k < nc,
                kk == k,
                start == c.offsets@[k as int],
                end == c.offsets@[k + 1],
                start <= s <= end,
                touched.len() == num_verts,
                forall|v: int| 0 <= v < num_verts ==> #[trigger] touched@[v] == u32::MAX || touched@[v] <= k,
                forall|v: u32| v < num_verts ==> (touched@[v as int] == kk <==> #[trigger] seen_before(c, ep, k as int, s as int, 0, v)),
                !repeat_before(c, ep, k as int, s as int, 0),
                forall|k2: int| 0 <= k2 < k ==> !#[trigger] class_repeats(c, ep, k2),
            decreases end - s,
        {
            let ci = coloring.idx[s] as usize;
            let row: &[u32] = endpoints[ci];
            assert(row@ == ep[ci as int]);
            let mut p: usize = 0;
            while p < row.len()
                invariant
                    c == *coloring,
                    ep == endpoints.deep_view(),
                    classes_in_range(c, ep, num_verts as nat),
                    nc == c.spec_num_colors(),
                    0 <= k < nc,
                    kk == k,
                    start == c.offsets@[k as int],
                    end == c.offsets@[k + 1],
                    start <= s < end,
                    ci == c.idx@[s as int],
                    row@ == ep[ci as int],
                    0 <= p <= row.len(),
                    touched.len() == num_verts,
                    forall|v: int| 0 <= v < num_verts ==> #[trigger] touched@[v] == u32::MAX || touched@[v] <= k,
                    forall|v: u32| v < num_verts ==> (touched@[v as int] == kk <==> #[trigger] seen_before(c, ep, k as int, s as int, p as int, v)),
                    !repeat_before(c, ep, k as int, s as int, p as int),
                    forall|k2: int| 0 <= k2 < k ==> !#[trigger] class_repeats(c, ep, k2),
                decreases row.len() - p,
            {
                let v = row[p];
                proof {
                    assert(slot_vertex(c, ep, s as int, p as int) == v);
                    assert(class_pos(c, ep, k as int, s as int, p as int));
                    assert(v < num_verts);
                }
                if touched[v as usize] == kk {
                    proof {
                        assert(seen_before(c, ep, k as int, s as int, p as int, v));
                        let (s1, p1) = choose|s1: int, p1: int| #![trigger slot_vertex(c, ep, s1, p1)]
                            class_pos(c, ep, k as int, s1, p1) && pos_before(s1, p1, s as int, p as int)
                                && slot_vertex(c, ep, s1, p1) == v;
                        assert(repeat_before(c, ep, k as int, end as int, 0)) by {
                            assert(class_pos(c, ep, k as int, s1, p1) && class_pos(c, ep, k as int, s as int, p as int)
                                && pos_before(s1, p1, s as int, p as int) && pos_before(s as int, p as int, end as int, 0)
                                && slot_vertex(c, ep, s1, p1) == slot_vertex(c, ep, s as int, p as int));
                        }
                        assert(class_repeats(c, ep, k as int));
                    }
                    return false;
                }
                let ghost before = touched@;
                touched.set(v as usize, kk);
                proof {
                    assert forall|w: u32| w < num_verts implies (touched@[w as int] == kk <==> #[trigger] seen_before(c, ep, k as int, s as int, (p + 1) as int, w)) by {
                        if w == v {
                            assert(seen_before(c, ep, k as int, s as int, (p + 1) as int, w)) by {
                                assert(class_pos(c, ep, k as int, s as int, p as int) && pos_before(s as int, p as int, s as int, (p + 1) as int)
                                    && slot_vertex(c, ep, s as int, p as int) == w);
                            }
                        } else {
                            assert(touched@[w as int] == before[w as int]);
                            if seen_before(c, ep, k as int, s as int, (p + 1) as int, w) {
                                let (s1, p1) = choose|s1: int, p1: int| #![trigger slot_vertex(c, ep, s1, p1)]
                                    class_pos(c, ep, k as int, s1, p1) && pos_before(s1, p1, s as int, (p + 1) as int)
                                        && slot_vertex(c, ep, s1, p1) == w;
                                assert(pos_before(s1, p1, s as int, p as int));
                                assert(seen_before(c, ep, k as int, s as int, p as int, w));
                            }
                            if seen_before(c, ep, k as int, s as int, p as int, w) {
                                let (s1, p1) = choose|s1: int, p1: int| #![trigger slot_vertex(c, ep, s1, p1)]
                                    class_pos(c, ep, k as int, s1, p1) && pos_before(s1, p1, s as int, p as int)
                                        && slot_vertex(c, ep, s1, p1) == w;
                                assert(pos_before(s1, p1, s as int, (p + 1) as int));
                            }
                        }
                    }
                    if repeat_before(c, ep, k as int, s as int, (p + 1) as int) {
                        let (s1, p1, s2, p2) = choose|s1: int, p1: int, s2: int, p2: int|
                            #![trigger slot_vertex(c, ep, s1, p1), slot_vertex(c, ep, s2, p2)]
                            class_pos(c, ep, k as int, s1, p1) && class_pos(c, ep, k as int, s2, p2) && pos_before(s1, p1, s2, p2)
                                && pos_before(s2, p2, s as int, (p + 1) as int) && slot_vertex(c, ep, s1, p1) == slot_vertex(c, ep, s2, p2);
                        if s2 == s && p2 == p {
                            assert(seen_before(c, ep, k as int, s as int, p as int, v)) by {
                                assert(class_pos(c, ep, k as int, s1, p1) && pos_before(s1, p1, s as int, p as int)
                                    && slot_vertex(c, ep, s1, p1) == v);
                            }
                            assert(false);
                        } else {
                            assert(repeat_before(c, ep, k as int, s as int, p as int)) by {
                                assert(pos_before(s2, p2, s as int, p as int));
                            }
                        }
                    }
                }
                p = p + 1;
            }
            proof {
                let len = row@.len() as int;
                // Positions before the end of slot `s` are those before the start of slot `s + 1`.
                assert forall|s1: int, p1: int| class_pos(c, ep, k as int, s1, p1) implies
                    (pos_before(s1, p1, s as int, len) <==> #[trigger] pos_before(s1, p1, (s + 1) as int, 0)) by {
                    if s1 == s {
                        assert(ep[c.idx@[s1] as int].len() == len);
                    }
                }
                assert forall|w: u32| w < num_verts implies (touched@[w as int] == kk <==> #[trigger] seen_before(c, ep, k as int, (s + 1) as int, 0, w)) by {
                    if seen_before(c, ep, k as int, (s + 1) as int, 0, w) {
                        let (s1, p1) = choose|s1: int, p1: int| #![trigger slot_vertex(c, ep, s1, p1)]
                            class_pos(c, ep, k as int, s1, p1) && pos_before(s1, p1, (s + 1) as int, 0)
                                && slot_vertex(c, ep, s1, p1) == w;
                        assert(pos_before(s1, p1, s as int, len));
                    }
                    if seen_before(c, ep, k as int, s as int, len, w) {
                        let (s1, p1) = choose|s1: int, p1: int| #![trigger slot_vertex(c, ep, s1, p1)]
                            class_pos(c, ep, k as int, s1, p1) && pos_before(s1, p1, s as int, len)
                                && slot_vertex(c, ep, s1, p1) == w;
                        assert(pos_before(s1, p1, (s + 1) as int, 0));
                    }
                }
                if repeat_before(c, ep, k as int, (s + 1) as int, 0) {
                    let (s1, p1, s2, p2) = choose|s1: int, p1: int, s2: int, p2: int|
                        #![trigger slot_vertex(c, ep, s1, p1), slot_vertex(c, ep, s2, p2)]
                        class_pos(c, ep, k as int, s1, p1) && class_pos(c, ep, k as int, s2, p2) && pos_before(s1, p1, s2, p2)
                            && pos_before(s2, p2, (s + 1) as int, 0) && slot_vertex(c, ep, s1, p1) == slot_vertex(c, ep, s2, p2);
                    assert(pos_before(s2, p2, s as int, len));
                    assert(repeat_before(c, ep, k as int, s as int, len));
                }
            }
            s = s + 1;
        }
        proof {
            assert(!class_repeats(c, ep, k as int));
            assert forall|k2: int| 0 <= k2 < k + 1 implies !#[trigger] class_repeats(c, ep, k2) by {
            }
        }
        k = k + 1;
    }
    true
}

/// No constraint lists a vertex twice.
pub open spec fn endpoints_distinct(ep: Seq<Seq<u32>>) -> bool {
    forall|i: int, p: int, q: int| 0 <= i < ep.len() && 0 <= p < q < ep[i].len() ==> #[trigger] ep[i][p] != #[trigger] ep[i][q]
}

/// In the greedy coloring, two constraints of one color never touch a
/// common vertex.
pub proof fn lemma_same_color_no_shared_vertex(ep: Seq<Seq<u32>>, i: int, j: int)
    requires
        fits_in_mask(ep),
        0 <= i < j < ep.len(),
        greedy_coloring(ep)[i] == greedy_coloring(ep)[j],
    ensures
        !conflicts(ep, i, j),
{
    let gc = greedy_coloring(ep);
    let prev = greedy_colors(ep, j as nat);
    lemma_greedy_prefix(ep, (j + 1) as nat, ep.len());
    lemma_greedy_prefix(ep, j as nat, ep.len());
    lemma_greedy_len(ep, j as nat);
    assert(greedy_colors(ep, (j + 1) as nat) == prev.push(lowest_free(ep, prev, j, 0)));
    assert(gc[j] == lowest_free(ep, prev, j, 0));
    lemma_lowest_free_free(ep, prev, j, 0);
    assert(prev[i] == gc[i]);
    if conflicts(ep, i, j) {
        assert(color_used(ep, prev, j, gc[j]));
    }
}

/// The greedy coloring of constraints that list no vertex twice passes
/// validation: every color class is a true independent set.
pub proof fn lemma_greedy_coloring_is_independent(c: Coloring, ep: Seq<Seq<u32>>)
    requires
        fits_in_mask(ep),
        endpoints_distinct(ep),
        is_greedy_coloring(c, ep),
    ensures
        classes_independent(c, ep),
{
    let gc = greedy_coloring(ep);
    lemma_greedy_len(ep, ep.len());
    assert forall|k: int| 0 <= k < c.spec_num_colors() implies !#[trigger] class_repeats(c, ep, k) by {
        if class_repeats(c, ep, k) {
            let end = c.offsets@[k + 1] as int;
            let (s1, p1, s2, p2) = choose|s1: int, p1: int, s2: int, p2: int|
                #![trigger slot_vertex(c, ep, s1, p1), slot_vertex(c, ep, s2, p2)]
                class_pos(c, ep, k, s1, p1) && class_pos(c, ep, k, s2, p2) && pos_before(s1, p1, s2, p2)
                    && pos_before(s2, p2, end, 0) && slot_vertex(c, ep, s1, p1) == slot_vertex(c, ep, s2, p2);
            let i1 = c.idx@[s1] as int;
            let i2 = c.idx@[s2] as int;
            assert(i1 < ep.len() && gc[i1] == k);
            assert(i2 < ep.len() && gc[i2] == k);
            if s1 == s2 {
                assert(ep[i1][p1] != ep[i1][p2]);
            } else {
                assert(i1 < i2);
                lemma_same_color_no_shared_vertex(ep, i1, i2);
                let v = slot_vertex(c, ep, s1, p1);
                assert(ep[i1].contains(v) && ep[i2].contains(v)) by {
                    assert(ep[i1][p1] == v);
                    assert(ep[i2][p2] == v);
                }
            }
        }
    }
}

/// The class slices tile `idx`: the last offset is `idx.len()`.
pub proof fn lemma_offsets_tile_idx(c: Coloring, ep: Seq<Seq<u32>>)
    requires
        is_greedy_coloring(c, ep),
    ensures
        c.offsets@[c.offsets@.len() - 1] == c.idx@.len(),
{
    lemma_buckets_tile(c.offsets@, c.idx@, greedy_coloring(ep), (c.offsets@.len() - 1) as nat);
}

/// Every constraint appears in the class of its color, at the slot given by
/// how many constraints of that color come before it; so `idx` holds each
/// constraint exactly once.
pub proof fn lemma_every_constraint_in_its_class(c: Coloring, ep: Seq<Seq<u32>>, i: int)
    requires
        is_greedy_coloring(c, ep),
        0 <= i < ep.len(),
    ensures
        ({
            let gc = greedy_coloring(ep);
            let slot = c.offsets@[gc[i] as int] + count_key(gc, gc[i], i);
            &&& slot < c.offsets@[gc[i] + 1int]
            &&& c.idx@[slot] == i
        }),
{
    let gc = greedy_coloring(ep);
    lemma_greedy_len(ep, ep.len());
    lemma_bucketing_places_every_item(c.offsets@, c.idx@, gc, (c.offsets@.len() - 1) as nat, i);
}

} // verus!
