//! Self-collision culling: which vertex/triangle pairs are skipped, and the
//! vertex-triangle pairs that the overlapping triangle pairs of the
//! bounding-volume hierarchy yield.

use std::collections::HashSet;
use vstd::prelude::*;

use crate::sim::drag::neighbor_lists;
use crate::sim::shared::{lemma_pack_key_injective, lemma_pack_key_order, lemma_pack_key_parts, pack, pack_key};
use crate::sim::sorted_set::{sort_unique, strictly_sorted};

verus! {

broadcast use vstd::std_specs::hash::group_hash_axioms;

/// `vi` is a corner of the triangle or a one-ring neighbor of one of its corners.
pub open spec fn spec_is_adjacent(vi: u32, tri: [u32; 3], neighbors: Seq<Set<u32>>) -> bool {
    vi == tri[0] || vi == tri[1] || vi == tri[2] || neighbors[vi as int].contains(tri[0])
        || neighbors[vi as int].contains(tri[1]) || neighbors[vi as int].contains(tri[2])
}

/// A vertex is adjacent to a triangle exactly when, for one of its three
/// corners, the vertex is that corner or lists it among its neighbours.
pub proof fn lemma_adjacent_iff_some_corner_touches(vi: u32, tri: [u32; 3], neighbors: Seq<Set<u32>>)
    ensures
        spec_is_adjacent(vi, tri, neighbors)
            <==> exists|k: int| 0 <= k < 3 && (#[trigger] tri[k] == vi || neighbors[vi as int].contains(tri[k])),
{
    if spec_is_adjacent(vi, tri, neighbors) {
        if vi == tri[0] || neighbors[vi as int].contains(tri[0]) {
            assert(tri[0] == vi || neighbors[vi as int].contains(tri[0]));
        } else if vi == tri[1] || neighbors[vi as int].contains(tri[1]) {
            assert(tri[1] == vi || neighbors[vi as int].contains(tri[1]));
        } else {
            assert(tri[2] == vi || neighbors[vi as int].contains(tri[2]));
        }
    }
}

/// Whether vertex `vi` touches the triangle: it is one of its corners or
/// shares an edge with one of them.
pub fn is_adjacent(vi: u32, tri_verts: &[u32; 3], neighbors: &[HashSet<u32>]) -> (r: bool)
    requires
        !(vi == tri_verts[0] || vi == tri_verts[1] || vi == tri_verts[2]) ==> vi < neighbors@.len(),
    ensures
        r == spec_is_adjacent(vi, *tri_verts, neighbors@.map_values(|h: HashSet<u32>| h@)),
{
    if vi == tri_verts[0] || vi == tri_verts[1] || vi == tri_verts[2] {
        return true;
    }
    let nb = &neighbors[vi as usize];
    nb.contains(&tri_verts[0]) || nb.contains(&tri_verts[1]) || nb.contains(&tri_verts[2])
}

/// `v` is one of the corners of `tri`.
pub open spec fn is_corner(tri: [u32; 3], v: u32) -> bool {
    tri[0] == v || tri[1] == v || tri[2] == v
}

/// Vertex `vi`, a corner of face `from`, is tested against face `to`: it is
/// not adjacent to `to`.
pub open spec fn yields(faces: Seq<[u32; 3]>, nb: Seq<Set<u32>>, from: u32, to: u32, vi: u32) -> bool {
    is_corner(faces[from as int], vi) && !spec_is_adjacent(vi, faces[to as int], nb)
}

/// The overlapping triangle pair `p` yields the vertex-triangle pair
/// `(vi, fi)`: `fi` is one triangle of the pair and `vi` a corner of the
/// other that is not adjacent to `fi`.
pub open spec fn pair_hit(faces: Seq<[u32; 3]>, nb: Seq<Set<u32>>, tri_pairs: Seq<(u32, u32)>, p: int, vi: u32, fi: u32) -> bool {
    ||| fi == tri_pairs[p].1 && yields(faces, nb, tri_pairs[p].0, fi, vi)
    ||| fi == tri_pairs[p].0 && yields(faces, nb, tri_pairs[p].1, fi, vi)
}

/// Some overlapping triangle pair yields `(vi, fi)`.
pub open spec fn overlap_pair(faces: Seq<[u32; 3]>, nb: Seq<Set<u32>>, tri_pairs: Seq<(u32, u32)>, vi: u32, fi: u32) -> bool {
    exists|p: int| 0 <= p < tri_pairs.len() && #[trigger] pair_hit(faces, nb, tri_pairs, p, vi, fi)
}

/// The triangles of every pair exist, and every corner that is not also a
/// corner of the other triangle of its pair has a neighbour set.
pub open spec fn pairs_indexable(faces: Seq<[u32; 3]>, nb_len: nat, tri_pairs: Seq<(u32, u32)>) -> bool {
    &&& forall|p: int| 0 <= p < tri_pairs.len() ==> #[trigger] tri_pairs[p].0 < faces.len() && tri_pairs[p].1 < faces.len()
    &&& forall|p: int, v: u32| 0 <= p < tri_pairs.len() && #[trigger] is_corner(faces[tri_pairs[p].0 as int], v)
        && !is_corner(faces[tri_pairs[p].1 as int], v) ==> v < nb_len
    &&& forall|p: int, v: u32| 0 <= p < tri_pairs.len() && #[trigger] is_corner(faces[tri_pairs[p].1 as int], v)
        && !is_corner(faces[tri_pairs[p].0 as int], v) ==> v < nb_len
}

/// Appends the packed keys `(vi, to)` of the corners `vi` of face `from` that
/// are not adjacent to face `to`.
fn push_hits(raw: &mut Vec<u64>, faces: &[[u32; 3]], neighbors: &[HashSet<u32>], from: u32, to: u32)
    requires
        from < faces.len(),
        to < faces.len(),
        forall|v: u32| #[trigger] is_corner(faces@[from as int], v) && !is_corner(faces@[to as int], v) ==> v < neighbors.len(),
    ensures
        forall|x: u64| #[trigger] final(raw)@.contains(x) <==> (old(raw)@.contains(x)
            || exists|vi: u32| #[trigger] yields(faces@, neighbor_lists(neighbors@), from, to, vi)
                && pack_key((vi, to)) == x),
{
    let ghost nb = neighbor_lists(neighbors@);
    let tf = faces[from as usize];
    let tt = faces[to as usize];
    let ghost start = raw@;
    let mut k: usize = 0;
    while k < 3
        invariant
            0 <= k <= 3,
            tf == faces@[from as int],
            tt == faces@[to as int],
            nb == neighbor_lists(neighbors@),
            forall|v: u32| #[trigger] is_corner(tf, v) && !is_corner(tt, v) ==> v < neighbors.len(),
            forall|x: u64| #[trigger] raw@.contains(x) <==> (start.contains(x)
                || exists|j: int| 0 <= j < k && !spec_is_adjacent(tf[j], tt, nb) && pack_key((tf[j], to)) == x),
        decreases 3 - k,
    {
        let vi = tf[k];
        assert(is_corner(tf, vi));
        let ghost before = raw@;
        if !is_adjacent(vi, &tt, neighbors) {
            raw.push(pack((vi, to)));
            proof {
                assert forall|x: u64| #[trigger] raw@.contains(x) <==> (start.contains(x)
                    || exists|j: int| 0 <= j < k + 1 && !spec_is_adjacent(tf[j], tt, nb) && pack_key((tf[j], to)) == x) by {
                    if raw@.contains(x) {
                        let t = choose|t: int| 0 <= t < raw@.len() && raw@[t] == x;
                        if t < before.len() {
                            assert(before[t] == x);
                            assert(before.contains(x));
                        }
                    }
                    if before.contains(x) {
                        let t = choose|t: int| 0 <= t < before.len() && before[t] == x;
                        assert(raw@[t] == x);
                    }
                    if exists|j: int| 0 <= j < k + 1 && !spec_is_adjacent(tf[j], tt, nb) && pack_key((tf[j], to)) == x {
                        let j = choose|j: int| 0 <= j < k + 1 && !spec_is_adjacent(tf[j], tt, nb) && pack_key((tf[j], to)) == x;
                        if j == k {
                            assert(raw@[before.len() as int] == x);
                        }
                    }
                }
            }
        } else {
            proof {
                assert forall|x: u64| #[trigger] raw@.contains(x) <==> (start.contains(x)
                    || exists|j: int| 0 <= j < k + 1 && !spec_is_adjacent(tf[j], tt, nb) && pack_key((tf[j], to)) == x) by {
                    if exists|j: int| 0 <= j < k + 1 && !spec_is_adjacent(tf[j], tt, nb) && pack_key((tf[j], to)) == x {
                        let j = choose|j: int| 0 <= j < k + 1 && !spec_is_adjacent(tf[j], tt, nb) && pack_key((tf[j], to)) == x;
                        assert(j != k);
                    }
                }
            }
        }
        k = k + 1;
    }
    proof {
        assert forall|x: u64| #[trigger] raw@.contains(x) <==> (start.contains(x)
            || exists|vi: u32| #[trigger] yields(faces@, nb, from, to, vi) && pack_key((vi, to)) == x) by {
            if exists|j: int| 0 <= j < 3 && !spec_is_adjacent(tf[j], tt, nb) && pack_key((tf[j], to)) == x {
                let j = choose|j: int| 0 <= j < 3 && !spec_is_adjacent(tf[j], tt, nb) && pack_key((tf[j], to)) == x;
                assert(yields(faces@, nb, from, to, tf[j]));
            }
            if exists|vi: u32| #[trigger] yields(faces@, nb, from, to, vi) && pack_key((vi, to)) == x {
                let vi = choose|vi: u32| #[trigger] yields(faces@, nb, from, to, vi) && pack_key((vi, to)) == x;
                if vi == tf[0] {
                    assert(0 <= 0int < 3 && !spec_is_adjacent(tf[0], tt, nb) && pack_key((tf[0], to)) == x);
                } else if vi == tf[1] {
                    assert(0 <= 1int < 3 && !spec_is_adjacent(tf[1], tt, nb) && pack_key((tf[1], to)) == x);
                } else {
                    assert(0 <= 2int < 3 && !spec_is_adjacent(tf[2], tt, nb) && pack_key((tf[2], to)) == x);
                }
            }
        }
    }
}

/// The packed key `x` is that of a pair yielded by one of the first `m`
/// triangle pairs.
pub open spec fn hit_key_upto(faces: Seq<[u32; 3]>, nb: Seq<Set<u32>>, tri_pairs: Seq<(u32, u32)>, m: int, x: u64) -> bool {
    exists|q: int, vi: u32, fi: u32| 0 <= q < m && #[trigger] pair_hit(faces, nb, tri_pairs, q, vi, fi) && pack_key((vi, fi)) == x
}

/// The packed keys of all yielded pairs, with repeats.
fn hit_keys(tri_pairs: &[(u32, u32)], faces: &[[u32; 3]], neighbors: &[HashSet<u32>]) -> (raw: Vec<u64>)
    requires
        pairs_indexable(faces@, neighbors.len() as nat, tri_pairs@),
    ensures
        forall|x: u64| #[trigger] raw@.contains(x)
            <==> hit_key_upto(faces@, neighbor_lists(neighbors@), tri_pairs@, tri_pairs@.len() as int, x),
{
    let ghost nb = neighbor_lists(neighbors@);
    let mut raw: Vec<u64> = Vec::new();
    let mut p: usize = 0;
    while p < tri_pairs.len()
        invariant
            0 <= p <= tri_pairs.len(),
            nb == neighbor_lists(neighbors@),
            pairs_indexable(faces@, neighbors.len() as nat, tri_pairs@),
            forall|x: u64| #[trigger] raw@.contains(x) <==> hit_key_upto(faces@, nb, tri_pairs@, p as int, x),
        decreases tri_pairs.len() - p,
    {
        let (fa, fb) = tri_pairs[p];
        assert(tri_pairs@[p as int] == (fa, fb));
        proof {
            assert forall|v: u32| #[trigger] is_corner(faces@[fa as int], v) && !is_corner(faces@[fb as int], v)
                implies v < neighbors.len() by {
                assert(is_corner(faces@[tri_pairs@[p as int].0 as int], v));
            }
            assert forall|v: u32| #[trigger] is_corner(faces@[fb as int], v) && !is_corner(faces@[fa as int], v)
                implies v < neighbors.len() by {
                assert(is_corner(faces@[tri_pairs@[p as int].1 as int], v));
            }
        }
        let ghost before = raw@;
        push_hits(&mut raw, faces, neighbors, fa, fb);
        let ghost middle = raw@;
        push_hits(&mut raw, faces, neighbors, fb, fa);
        proof {
            assert forall|x: u64| #[trigger] raw@.contains(x) <==> hit_key_upto(faces@, nb, tri_pairs@, p + 1, x) by {
                if raw@.contains(x) && !before.contains(x) {
                    if middle.contains(x) {
                        let vi = choose|vi: u32| #[trigger] yields(faces@, nb, fa, fb, vi) && pack_key((vi, fb)) == x;
                        assert(pair_hit(faces@, nb, tri_pairs@, p as int, vi, fb));
                    } else {
                        let vi = choose|vi: u32| #[trigger] yields(faces@, nb, fb, fa, vi) && pack_key((vi, fa)) == x;
                        assert(pair_hit(faces@, nb, tri_pairs@, p as int, vi, fa));
                    }
                }
                if hit_key_upto(faces@, nb, tri_pairs@, p + 1, x) && !hit_key_upto(faces@, nb, tri_pairs@, p as int, x) {
                    let (q, vi, fi) = choose|q: int, vi: u32, fi: u32| 0 <= q < p + 1
                        && #[trigger] pair_hit(faces@, nb, tri_pairs@, q, vi, fi) && pack_key((vi, fi)) == x;
                    assert(q == p);
                    if fi == fb && yields(faces@, nb, fa, fb, vi) {
                        assert(middle.contains(x));
                    } else {
                        assert(fi == fa && yields(faces@, nb, fb, fa, vi));
                    }
                }
            }
        }
        p = p + 1;
    }
    raw
}

/// The vertex-triangle pairs that the overlapping triangle pairs of the
/// hierarchy yield: for each pair, each corner of one triangle against the
/// other, unless the corner is adjacent to it; each pair once, in increasing
/// lexicographic order.
pub fn vertex_triangle_pairs(tri_pairs: &[(u32, u32)], faces: &[[u32; 3]], neighbors: &[HashSet<u32>]) -> (r: Vec<(usize, u32)>)
    requires
        pairs_indexable(faces@, neighbors.len() as nat, tri_pairs@),
    ensures
        forall|s: int, t: int| 0 <= s < t < r@.len() ==> #[trigger] r@[s].0 < #[trigger] r@[t].0
            || (r@[s].0 == r@[t].0 && r@[s].1 < r@[t].1),
        forall|t: int| 0 <= t < r@.len() ==> #[trigger] r@[t].0 <= u32::MAX
            && overlap_pair(faces@, neighbor_lists(neighbors@), tri_pairs@, r@[t].0 as u32, r@[t].1),
        forall|vi: u32, fi: u32| #[trigger] overlap_pair(faces@, neighbor_lists(neighbors@), tri_pairs@, vi, fi)
            ==> exists|t: int| 0 <= t < r@.len() && r@[t] == (vi as usize, fi),
{
    let ghost nb = neighbor_lists(neighbors@);
    let ghost m = tri_pairs@.len() as int;
    let raw = hit_keys(tri_pairs, faces, neighbors);
    let sorted = sort_unique(raw.as_slice(), 0, raw.len());
    proof {
        assert(raw@.subrange(0, raw@.len() as int) == raw@);
    }
    let mut out: Vec<(usize, u32)> = Vec::new();
    let ghost mut ks: Seq<(u32, u32)> = Seq::empty();
    let mut t: usize = 0;
    while t < sorted.len()
        invariant
            nb == neighbor_lists(neighbors@),
            m == tri_pairs@.len(),
            strictly_sorted(sorted@),
            forall|x: u64| sorted@.to_set().contains(x) <==> hit_key_upto(faces@, nb, tri_pairs@, m, x),
            0 <= t <= sorted.len(),
            out.len() == t,
            ks.len() == t,
            forall|q: int| 0 <= q < t ==> #[trigger] pack_key(ks[q]) == sorted@[q],
            forall|q: int| 0 <= q < t ==> #[trigger] out@[q] == (ks[q].0 as usize, ks[q].1),
            forall|q: int| 0 <= q < t ==> #[trigger] overlap_pair(faces@, nb, tri_pairs@, ks[q].0, ks[q].1),
        decreases sorted.len() - t,
    {
        let x = sorted[t];
        let ghost k: (u32, u32);
        proof {
            assert(sorted@.contains(x));
            assert(sorted@.to_set().contains(x));
            let (q, vi, fi) = choose|q: int, vi: u32, fi: u32| 0 <= q < m
                && #[trigger] pair_hit(faces@, nb, tri_pairs@, q, vi, fi) && pack_key((vi, fi)) == x;
            k = (vi, fi);
            lemma_pack_key_parts(k);
            assert(overlap_pair(faces@, nb, tri_pairs@, k.0, k.1));
        }
        let a = (x / 0x1_0000_0000) as usize;
        let b = (x % 0x1_0000_0000) as u32;
        let ghost old_out = out@;
        let ghost old_ks = ks;
        out.push((a, b));
        proof {
            ks = ks.push(k);
            assert forall|q: int| 0 <= q < t + 1 implies #[trigger] pack_key(ks[q]) == sorted@[q] by {
                if q < t { assert(ks[q] == old_ks[q]); }
            }
            assert forall|q: int| 0 <= q < t + 1 implies #[trigger] out@[q] == (ks[q].0 as usize, ks[q].1) by {
                if q < t {
                    assert(ks[q] == old_ks[q]);
                    assert(out@[q] == old_out[q]);
                }
            }
            assert forall|q: int| 0 <= q < t + 1 implies #[trigger] overlap_pair(faces@, nb, tri_pairs@, ks[q].0, ks[q].1) by {
                if q < t { assert(ks[q] == old_ks[q]); }
            }
        }
        t = t + 1;
    }
    proof {
        assert forall|s: int, t2: int| 0 <= s < t2 < out@.len() implies #[trigger] out@[s].0 < #[trigger] out@[t2].0
            || (out@[s].0 == out@[t2].0 && out@[s].1 < out@[t2].1) by {
            assert(pack_key(ks[s]) == sorted@[s]);
            assert(pack_key(ks[t2]) == sorted@[t2]);
            assert(out@[s] == (ks[s].0 as usize, ks[s].1));
            assert(out@[t2] == (ks[t2].0 as usize, ks[t2].1));
            lemma_pack_key_order(ks[s], ks[t2]);
        }
        assert forall|q: int| 0 <= q < out@.len() implies #[trigger] out@[q].0 <= u32::MAX
            && overlap_pair(faces@, nb, tri_pairs@, out@[q].0 as u32, out@[q].1) by {
            assert(out@[q] == (ks[q].0 as usize, ks[q].1));
            assert(overlap_pair(faces@, nb, tri_pairs@, ks[q].0, ks[q].1));
        }
        assert forall|vi: u32, fi: u32| #[trigger] overlap_pair(faces@, nb, tri_pairs@, vi, fi)
            implies exists|q: int| 0 <= q < out@.len() && out@[q] == (vi as usize, fi) by {
            let p0 = choose|p0: int| 0 <= p0 < tri_pairs@.len() && #[trigger] pair_hit(faces@, nb, tri_pairs@, p0, vi, fi);
            assert(hit_key_upto(faces@, nb, tri_pairs@, m, pack_key((vi, fi))));
            assert(sorted@.to_set().contains(pack_key((vi, fi))));
            let q = choose|q: int| 0 <= q < sorted@.len() && sorted@[q] == pack_key((vi, fi));
            assert(pack_key(ks[q]) == sorted@[q]);
            lemma_pack_key_injective(ks[q], (vi, fi));
            assert(out@[q] == (ks[q].0 as usize, ks[q].1));
        }
    }
    out
}

} // verus!
