//! Topological filters of the self-contact broad phase: which spatially close
//! vertex-triangle and edge-edge pairs are worth a narrow-phase test.

use std::collections::HashSet;
use vstd::std_specs::iter::IteratorSpec;
use vstd::prelude::*;

use crate::sim::shared::{
    edges_touch, lemma_pack_key_injective, lemma_pack_key_order, lemma_pack_key_parts, lex_less, pack,
    pack_key,
};
use crate::sim::sorted_set::{sort_unique, strictly_sorted};

verus! {

broadcast use vstd::std_specs::hash::group_hash_axioms;

/// Vertex `vi` may touch face `fi`: it is none of the face's corners and no
/// corner is one of its neighbours (`nbrs`).
pub open spec fn vt_admissible(faces: Seq<[u32; 3]>, nbrs: Set<u32>, vi: int, fi: int) -> bool {
    let f = faces[fi];
    &&& vi != f[0] as int && vi != f[1] as int && vi != f[2] as int
    &&& !nbrs.contains(f[0]) && !nbrs.contains(f[1]) && !nbrs.contains(f[2])
}

/// Vertex `vi` may touch face `fi` exactly when every one of the face's
/// three corners is neither `vi` nor a neighbour of `vi`.
pub proof fn lemma_admissible_iff_no_corner_touches(faces: Seq<[u32; 3]>, nbrs: Set<u32>, vi: int, fi: int)
    ensures
        vt_admissible(faces, nbrs, vi, fi)
            <==> forall|k: int| 0 <= k < 3 ==> #[trigger] faces[fi][k] as int != vi && !nbrs.contains(faces[fi][k]),
{
    if forall|k: int| 0 <= k < 3 ==> #[trigger] faces[fi][k] as int != vi && !nbrs.contains(faces[fi][k]) {
        assert(faces[fi][0] as int != vi && !nbrs.contains(faces[fi][0]));
        assert(faces[fi][1] as int != vi && !nbrs.contains(faces[fi][1]));
        assert(faces[fi][2] as int != vi && !nbrs.contains(faces[fi][2]));
    }
}

/// The pairs `(vi, fi)` for the candidate faces `fi` near vertex `vi` that
/// survive the topological filter, each candidate at most once.
pub fn admissible_vertex_triangle_pairs(
    faces: &[[u32; 3]],
    neighbors: &[HashSet<u32>],
    vi: usize,
    candidates: &HashSet<u32>,
) -> (r: Vec<(usize, u32)>)
    requires
        vi < neighbors.len(),
        forall|fi: u32| #[trigger] candidates@.contains(fi) ==> fi < faces.len(),
    ensures
        forall|t: int| 0 <= t < r.len() ==> #[trigger] r[t].0 == vi && candidates@.contains(r[t].1)
            && vt_admissible(faces@, neighbors[vi as int]@, vi as int, r[t].1 as int),
        forall|s: int, t: int| 0 <= s < t < r.len() ==> r[s].1 != r[t].1,
        forall|fi: u32| #[trigger] candidates@.contains(fi) && vt_admissible(faces@, neighbors[vi as int]@, vi as int, fi as int)
            ==> exists|t: int| 0 <= t < r.len() && r[t].1 == fi,
{
    let nb = &neighbors[vi];
    let mut pairs: Vec<(usize, u32)> = Vec::new();
    let ghost keys = candidates.iter().remaining().unref();
    let ghost mut taken: Seq<int> = Seq::empty();
    for fr in it: candidates.iter()
        invariant
            keys == it.seq().map_values(|r: &u32| *r),
            keys.to_set() == candidates@,
            keys.no_duplicates(),
            vi < neighbors.len(),
            nb@ == neighbors[vi as int]@,
            forall|fi: u32| #[trigger] candidates@.contains(fi) ==> fi < faces.len(),
            taken.len() == pairs.len(),
            forall|t: int| 0 <= t < pairs.len() ==> 0 <= #[trigger] taken[t] < it.index()
                && pairs[t] == (vi, keys[taken[t]]) && vt_admissible(faces@, nb@, vi as int, keys[taken[t]] as int),
            forall|s: int, t: int| 0 <= s < t < pairs.len() ==> #[trigger] taken[s] < #[trigger] taken[t],
            forall|j: int| 0 <= j < it.index() && vt_admissible(faces@, nb@, vi as int, #[trigger] keys[j] as int)
                ==> exists|t: int| 0 <= t < pairs.len() && #[trigger] taken[t] == j,
    {
        let fi = *fr;
        let ghost j = it.index() as int;
        assert(keys[j] == fi);
        assert(keys.to_set().contains(fi));
        let f = faces[fi as usize];
        let skip = vi == f[0] as usize || vi == f[1] as usize || vi == f[2] as usize
            || nb.contains(&f[0]) || nb.contains(&f[1]) || nb.contains(&f[2]);
        let ghost old_taken = taken;
        let ghost old_len = pairs.len();
        if !skip {
            pairs.push((vi, fi));
            proof {
                taken = taken.push(j);
            }
        }
        proof {
            assert forall|j2: int| 0 <= j2 < j + 1 && vt_admissible(faces@, nb@, vi as int, #[trigger] keys[j2] as int)
                implies exists|t: int| 0 <= t < pairs.len() && #[trigger] taken[t] == j2 by {
                if j2 < j {
                    let t = choose|t: int| 0 <= t < old_len && #[trigger] old_taken[t] == j2;
                    assert(taken[t] == j2);
                } else {
                    assert(taken[old_len as int] == j2);
                }
            }
        }
    }
    proof {
        assert forall|s: int, t: int| 0 <= s < t < pairs.len() implies pairs[s].1 != pairs[t].1 by {
            assert(taken[s] < taken[t]);
        }
        assert forall|t: int| 0 <= t < pairs.len() implies #[trigger] pairs[t].0 == vi && candidates@.contains(pairs[t].1)
            && vt_admissible(faces@, neighbors[vi as int]@, vi as int, pairs[t].1 as int) by {
            assert(keys.to_set().contains(keys[taken[t]]));
        }
        assert forall|fi: u32| #[trigger] candidates@.contains(fi) && vt_admissible(faces@, neighbors[vi as int]@, vi as int, fi as int)
            implies exists|t: int| 0 <= t < pairs.len() && pairs[t].1 == fi by {
            assert(keys.to_set().contains(fi));
            let j = choose|j: int| 0 <= j < keys.len() && keys[j] == fi;
            assert(vt_admissible(faces@, nb@, vi as int, keys[j] as int));
            let t = choose|t: int| 0 <= t < pairs.len() && #[trigger] taken[t] == j;
            assert(pairs[t].1 == fi);
        }
    }
    pairs
}

/// Particle `j` is a contact partner worth testing for particle `i`: it
/// comes later (each pair is handled once) and is not in `i`'s one-ring.
pub open spec fn particle_partner(ring: Set<u32>, i: int, j: u32) -> bool {
    j > i && !ring.contains(j)
}

/// The hash neighbours `neigh` of particle `i` that are contact partners
/// for it, in the order found.
pub open spec fn particle_partners(ring: Set<u32>, i: int, neigh: Seq<u32>) -> Seq<u32> {
    neigh.filter(|j: u32| particle_partner(ring, i, j))
}

/// Filters the hash neighbours of particle `i` down to its contact
/// partners: later particles outside its one-ring, in the order found.
pub fn particle_contact_partners(one_ring: &[HashSet<u32>], i: usize, neigh: &[u32]) -> (r: Vec<u32>)
    requires
        i < one_ring.len(),
    ensures
        r@ == particle_partners(one_ring[i as int]@, i as int, neigh@),
{
    let ring = &one_ring[i];
    let ghost f = |j: u32| particle_partner(ring@, i as int, j);
    let mut out: Vec<u32> = Vec::new();
    let mut k: usize = 0;
    while k < neigh.len()
        invariant
            0 <= k <= neigh.len(),
            i < one_ring.len(),
            ring@ == one_ring[i as int]@,
            f == (|j: u32| particle_partner(ring@, i as int, j)),
            out@ == neigh@.take(k as int).filter(f),
        decreases neigh.len() - k,
    {
        let j = neigh[k];
        proof {
            assert(neigh@.take(k + 1).drop_last() == neigh@.take(k as int));
            reveal(Seq::filter);
        }
        if j as usize > i && !ring.contains(&j) {
            out.push(j);
        }
        k = k + 1;
    }
    assert(neigh@.take(neigh@.len() as int) == neigh@);
    out
}

/// Some vertex of `dirty` lists `x`.
pub open spec fn listed_by(lists: Seq<Vec<u32>>, dirty: Set<usize>, x: u32) -> bool {
    exists|v: usize| #[trigger] dirty.contains(v) && v < lists.len() && lists[v as int]@.contains(x)
}

/// Everything the incidence lists of the moved vertices name: the edges (or
/// faces) touched by a moved vertex.
pub fn incident_union(lists: &[Vec<u32>], dirty: &HashSet<usize>) -> (r: HashSet<u32>)
    requires
        forall|v: usize| #[trigger] dirty@.contains(v) ==> v < lists.len(),
    ensures
        forall|x: u32| #[trigger] r@.contains(x) <==> listed_by(lists@, dirty@, x),
{
    let mut out: HashSet<u32> = HashSet::new();
    let ghost keys = dirty.iter().remaining().unref();
    for vr in it: dirty.iter()
        invariant
            keys == it.seq().map_values(|r: &usize| *r),
            keys.to_set() == dirty@,
            forall|v: usize| #[trigger] dirty@.contains(v) ==> v < lists.len(),
            forall|x: u32| #[trigger] out@.contains(x) <==> exists|j: int| 0 <= j < it.index()
                && #[trigger] lists[keys[j] as int]@.contains(x),
    {
        let v = *vr;
        let ghost j = it.index() as int;
        assert(keys[j] == v);
        assert(keys.to_set().contains(v));
        let list = &lists[v];
        let mut i: usize = 0;
        while i < list.len()
            invariant
                0 <= i <= list.len(),
                v < lists.len(),
                list@ == lists[v as int]@,
                keys[j] == v,
                forall|x: u32| #[trigger] out@.contains(x) <==> (exists|j2: int| 0 <= j2 < j
                    && #[trigger] lists[keys[j2] as int]@.contains(x)) || list@.subrange(0, i as int).contains(x),
            decreases list.len() - i,
        {
            let x = list[i];
            out.insert(x);
            proof {
                assert forall|y: u32| #[trigger] out@.contains(y) <==> (exists|j2: int| 0 <= j2 < j
                    && #[trigger] lists[keys[j2] as int]@.contains(y)) || list@.subrange(0, i + 1).contains(y) by {
                    let lo = list@.subrange(0, i as int);
                    let hi = list@.subrange(0, i + 1);
                    if lo.contains(y) {
                        let p = choose|p: int| 0 <= p < lo.len() && lo[p] == y;
                        assert(hi[p] == y);
                    }
                    if hi.contains(y) {
                        let p = choose|p: int| 0 <= p < hi.len() && hi[p] == y;
                        if p < i {
                            assert(lo[p] == y);
                        }
                    }
                    if y == x {
                        assert(hi[i as int] == y);
                    }
                }
            }
            i = i + 1;
        }
        proof {
            assert(list@.subrange(0, list@.len() as int) == list@);
            assert forall|x: u32| #[trigger] out@.contains(x) <==> exists|j2: int| 0 <= j2 < j + 1
                && #[trigger] lists[keys[j2] as int]@.contains(x) by {
                if exists|j2: int| 0 <= j2 < j + 1 && #[trigger] lists[keys[j2] as int]@.contains(x) {
                    let j2 = choose|j2: int| 0 <= j2 < j + 1 && #[trigger] lists[keys[j2] as int]@.contains(x);
                    if j2 == j {
                        assert(list@.contains(x));
                    }
                }
            }
        }
    }
    proof {
        assert forall|x: u32| #[trigger] out@.contains(x) <==> listed_by(lists@, dirty@, x) by {
            if out@.contains(x) {
                let j = choose|j: int| 0 <= j < keys.len() && #[trigger] lists[keys[j] as int]@.contains(x);
                assert(keys.to_set().contains(keys[j]));
                assert(dirty@.contains(keys[j]));
            }
            if listed_by(lists@, dirty@, x) {
                let v = choose|v: usize| #[trigger] dirty@.contains(v) && v < lists.len() && lists[v as int]@.contains(x);
                assert(keys.to_set().contains(v));
                let j = choose|j: int| 0 <= j < keys.len() && keys[j] == v;
                assert(lists[keys[j] as int]@.contains(x));
            }
        }
    }
    out
}

/// The pair `{a, b}` written smaller first.
pub open spec fn ordered(a: u32, b: u32) -> (u32, u32) {
    if a < b { (a, b) } else { (b, a) }
}

/// Views of the proximity queries: each names an edge and the set of edges
/// found near it.
pub open spec fn query_sets(queries: Seq<(u32, HashSet<u32>)>) -> Seq<(u32, Set<u32>)> {
    queries.map_values(|q: (u32, HashSet<u32>)| (q.0, q.1@))
}

/// Some query found edge `e` near edge `qs[q].0`, `e` being another edge.
pub open spec fn query_hit(qs: Seq<(u32, Set<u32>)>, q: int, e: u32) -> bool {
    0 <= q < qs.len() && qs[q].1.contains(e) && e != qs[q].0
}

/// `(a, b)` is a hit of some query, smaller edge first.
pub open spec fn queried_pair(qs: Seq<(u32, Set<u32>)>, a: u32, b: u32) -> bool {
    exists|q: int, e: u32| #[trigger] query_hit(qs, q, e) && ordered(qs[q].0, e) == (a, b)
}

/// Every edge a query names is below `num_edges`.
pub open spec fn queries_name_edges(qs: Seq<(u32, Set<u32>)>, num_edges: nat) -> bool {
    forall|q: int| 0 <= q < qs.len() ==> #[trigger] qs[q].0 < num_edges
        && forall|e: u32| qs[q].1.contains(e) ==> e < num_edges
}

/// Packed key of a hit among the first `q_hi` queries.
spec fn hit_key_before(qs: Seq<(u32, Set<u32>)>, q_hi: int, x: u64) -> bool {
    exists|q: int, e: u32| 0 <= q < q_hi && #[trigger] query_hit(qs, q, e) && pack_key(ordered(qs[q].0, e)) == x
}

/// The packed keys of all query hits, in no particular order.
fn hit_keys(queries: &[(u32, HashSet<u32>)]) -> (raw: Vec<u64>)
    ensures
        forall|x: u64| raw@.contains(x) <==> hit_key_before(query_sets(queries@), queries@.len() as int, x),
{
    let ghost qs = query_sets(queries@);
    let mut raw: Vec<u64> = Vec::new();
    let mut q: usize = 0;
    while q < queries.len()
        invariant
            qs == query_sets(queries@),
            0 <= q <= queries.len(),
            forall|x: u64| raw@.contains(x) <==> hit_key_before(qs, q as int, x),
        decreases queries.len() - q,
    {
        let ei = queries[q].0;
        let near = &queries[q].1;
        assert(qs[q as int] == (ei, near@));
        let ghost keys = near.iter().remaining().unref();
        for er in it: near.iter()
            invariant
                qs == query_sets(queries@),
                0 <= q < queries.len(),
                qs[q as int] == (ei, near@),
                keys == it.seq().map_values(|r: &u32| *r),
                keys.to_set() == near@,
                forall|x: u64| raw@.contains(x) <==> (hit_key_before(qs, q as int, x)
                    || exists|j: int| 0 <= j < it.index() && #[trigger] keys[j] != ei && pack_key(ordered(ei, keys[j])) == x),
        {
            let ej = *er;
            let ghost j = it.index() as int;
            assert(keys[j] == ej);
            let ghost old_raw = raw@;
            if ej != ei {
                let k = if ei < ej { pack((ei, ej)) } else { pack((ej, ei)) };
                raw.push(k);
                proof {
                    assert forall|x: u64| raw@.contains(x) <==> (hit_key_before(qs, q as int, x)
                        || exists|j2: int| 0 <= j2 < j + 1 && #[trigger] keys[j2] != ei && pack_key(ordered(ei, keys[j2])) == x) by {
                        if raw@.contains(x) {
                            let t = choose|t: int| 0 <= t < raw@.len() && raw@[t] == x;
                            if t < old_raw.len() {
                                assert(old_raw[t] == x);
                                assert(old_raw.contains(x));
                            } else {
                                assert(keys[j] != ei && pack_key(ordered(ei, keys[j])) == x);
                            }
                        }
                        if old_raw.contains(x) {
                            let t = choose|t: int| 0 <= t < old_raw.len() && old_raw[t] == x;
                            assert(raw@[t] == x);
                        }
                        if x == k {
                            assert(raw@[old_raw.len() as int] == x);
                        }
                    }
                }
            } else {
                proof {
                    assert forall|x: u64| raw@.contains(x) <==> (hit_key_before(qs, q as int, x)
                        || exists|j2: int| 0 <= j2 < j + 1 && #[trigger] keys[j2] != ei && pack_key(ordered(ei, keys[j2])) == x) by {
                        if exists|j2: int| 0 <= j2 < j + 1 && #[trigger] keys[j2] != ei && pack_key(ordered(ei, keys[j2])) == x {
                            let j2 = choose|j2: int| 0 <= j2 < j + 1 && #[trigger] keys[j2] != ei && pack_key(ordered(ei, keys[j2])) == x;
                            assert(j2 < j);
                        }
                    }
                }
            }
        }
        proof {
            assert forall|x: u64| raw@.contains(x) <==> hit_key_before(qs, q + 1, x) by {
                if exists|j: int| 0 <= j < keys.len() && #[trigger] keys[j] != ei && pack_key(ordered(ei, keys[j])) == x {
                    let j = choose|j: int| 0 <= j < keys.len() && #[trigger] keys[j] != ei && pack_key(ordered(ei, keys[j])) == x;
                    assert(keys.to_set().contains(keys[j]));
                    assert(query_hit(qs, q as int, keys[j]));
                }
                if hit_key_before(qs, q + 1, x) && !hit_key_before(qs, q as int, x) {
                    let (q2, e) = choose|q2: int, e: u32| 0 <= q2 < q + 1 && #[trigger] query_hit(qs, q2, e)
                        && pack_key(ordered(qs[q2].0, e)) == x;
                    assert(q2 == q);
                    assert(keys.to_set().contains(e));
                    let j = choose|j: int| 0 <= j < keys.len() && keys[j] == e;
                    assert(keys[j] != ei && pack_key(ordered(ei, keys[j])) == x);
                }
            }
        }
        q = q + 1;
    }
    raw
}

/// All query hits, each pair once, smaller edge first, in increasing
/// lexicographic order.
fn sorted_hit_pairs(queries: &[(u32, HashSet<u32>)]) -> (r: Vec<(usize, usize)>)
    ensures
        forall|s: int, t: int| 0 <= s < t < r@.len() ==> lex_less(#[trigger] r@[s], #[trigger] r@[t]),
        forall|t: int| 0 <= t < r@.len() ==> #[trigger] r@[t].0 <= u32::MAX && r@[t].1 <= u32::MAX
            && queried_pair(query_sets(queries@), r@[t].0 as u32, r@[t].1 as u32),
        forall|a: u32, b: u32| #[trigger] queried_pair(query_sets(queries@), a, b)
            ==> exists|t: int| 0 <= t < r@.len() && r@[t] == (a as usize, b as usize),
{
    let ghost qs = query_sets(queries@);
    let raw = hit_keys(queries);
    let sorted = sort_unique(raw.as_slice(), 0, raw.len());
    proof {
        assert(raw@.subrange(0, raw@.len() as int) == raw@);
    }
    let mut out: Vec<(usize, usize)> = Vec::new();
    let ghost mut ks: Seq<(u32, u32)> = Seq::empty();
    let mut t: usize = 0;
    while t < sorted.len()
        invariant
            qs == query_sets(queries@),
            strictly_sorted(sorted@),
            forall|x: u64| sorted@.to_set().contains(x) <==> hit_key_before(qs, qs.len() as int, x),
            0 <= t <= sorted.len(),
            out.len() == t,
            ks.len() == t,
            forall|q: int| 0 <= q < t ==> #[trigger] pack_key(ks[q]) == sorted@[q],
            forall|q: int| 0 <= q < t ==> #[trigger] out@[q] == (ks[q].0 as usize, ks[q].1 as usize),
            forall|q: int| 0 <= q < t ==> #[trigger] queried_pair(qs, ks[q].0, ks[q].1),
        decreases sorted.len() - t,
    {
        let x = sorted[t];
        let ghost k: (u32, u32);
        proof {
            assert(sorted@.contains(x));
            assert(sorted@.to_set().contains(x));
            let (q, e) = choose|q: int, e: u32| 0 <= q < qs.len() && #[trigger] query_hit(qs, q, e)
                && pack_key(ordered(qs[q].0, e)) == x;
            k = ordered(qs[q].0, e);
            lemma_pack_key_parts(k);
            assert(queried_pair(qs, k.0, k.1));
        }
        let a = (x / 0x1_0000_0000) as usize;
        let b = (x % 0x1_0000_0000) as usize;
        let ghost old_out = out@;
        let ghost old_ks = ks;
        out.push((a, b));
        proof {
            ks = ks.push(k);
            assert forall|q: int| 0 <= q < t + 1 implies #[trigger] pack_key(ks[q]) == sorted@[q] by {
                if q < t { assert(ks[q] == old_ks[q]); }
            }
            assert forall|q: int| 0 <= q < t + 1 implies #[trigger] out@[q] == (ks[q].0 as usize, ks[q].1 as usize) by {
                if q < t {
                    assert(ks[q] == old_ks[q]);
                    assert(out@[q] == old_out[q]);
                }
            }
            assert forall|q: int| 0 <= q < t + 1 implies #[trigger] queried_pair(qs, ks[q].0, ks[q].1) by {
                if q < t { assert(ks[q] == old_ks[q]); }
            }
        }
        t = t + 1;
    }
    proof {
        assert forall|s: int, t2: int| 0 <= s < t2 < out@.len() implies lex_less(#[trigger] out@[s], #[trigger] out@[t2]) by {
            assert(pack_key(ks[s]) == sorted@[s]);
            assert(pack_key(ks[t2]) == sorted@[t2]);
            assert(out@[s] == (ks[s].0 as usize, ks[s].1 as usize));
            assert(out@[t2] == (ks[t2].0 as usize, ks[t2].1 as usize));
            lemma_pack_key_order(ks[s], ks[t2]);
        }
        assert forall|q: int| 0 <= q < out@.len() implies #[trigger] out@[q].0 <= u32::MAX && out@[q].1 <= u32::MAX
            && queried_pair(qs, out@[q].0 as u32, out@[q].1 as u32) by {
            assert(out@[q] == (ks[q].0 as usize, ks[q].1 as usize));
            assert(queried_pair(qs, ks[q].0, ks[q].1));
        }
        assert forall|a: u32, b: u32| #[trigger] queried_pair(qs, a, b)
            implies exists|q: int| 0 <= q < out@.len() && out@[q] == (a as usize, b as usize) by {
            let (q0, e) = choose|q0: int, e: u32| #[trigger] query_hit(qs, q0, e) && ordered(qs[q0].0, e) == (a, b);
            assert(hit_key_before(qs, qs.len() as int, pack_key((a, b))));
            assert(sorted@.to_set().contains(pack_key((a, b))));
            let p = choose|p: int| 0 <= p < sorted@.len() && sorted@[p] == pack_key((a, b));
            assert(pack_key(ks[p]) == sorted@[p]);
            lemma_pack_key_injective(ks[p], (a, b));
            assert(out@[p] == (ks[p].0 as usize, ks[p].1 as usize));
        }
    }
    out
}

/// Edge pairs found by the proximity queries around the edges of moved
/// vertices that share no endpoint: each pair once, smaller edge first, in
/// increasing lexicographic order.
pub fn dirty_edge_edge_pairs(queries: &[(u32, HashSet<u32>)], edges: &[[u32; 2]]) -> (r: Vec<(usize, usize)>)
    requires
        queries_name_edges(query_sets(queries@), edges@.len() as nat),
    ensures
        forall|s: int, t: int| 0 <= s < t < r@.len() ==> lex_less(#[trigger] r@[s], #[trigger] r@[t]),
        forall|t: int| 0 <= t < r@.len() ==> #[trigger] r@[t].0 < edges@.len() && r@[t].1 < edges@.len()
            && queried_pair(query_sets(queries@), r@[t].0 as u32, r@[t].1 as u32)
            && !edges_touch(edges@[r@[t].0 as int], edges@[r@[t].1 as int]),
        forall|a: u32, b: u32| #[trigger] queried_pair(query_sets(queries@), a, b) && !edges_touch(edges@[a as int], edges@[b as int])
            ==> exists|t: int| 0 <= t < r@.len() && r@[t] == (a as usize, b as usize),
{
    let ghost qs = query_sets(queries@);
    let candidates = sorted_hit_pairs(queries);
    let mut out: Vec<(usize, usize)> = Vec::new();
    let mut t: usize = 0;
    let ghost mut taken: Seq<int> = Seq::empty();
    while t < candidates.len()
        invariant
            qs == query_sets(queries@),
            queries_name_edges(qs, edges@.len() as nat),
            0 <= t <= candidates.len(),
            forall|s: int, t2: int| 0 <= s < t2 < candidates@.len() ==> lex_less(#[trigger] candidates@[s], #[trigger] candidates@[t2]),
            forall|q: int| 0 <= q < candidates@.len() ==> #[trigger] candidates@[q].0 <= u32::MAX && candidates@[q].1 <= u32::MAX
                && queried_pair(qs, candidates@[q].0 as u32, candidates@[q].1 as u32),
            taken.len() == out.len(),
            forall|q: int| 0 <= q < out.len() ==> 0 <= #[trigger] taken[q] < t && out@[q] == candidates@[taken[q]],
            forall|q: int, q2: int| 0 <= q < q2 < out.len() ==> #[trigger] taken[q] < #[trigger] taken[q2],
            forall|q: int| 0 <= q < out.len() ==> #[trigger] out@[q].0 < edges@.len() && out@[q].1 < edges@.len()
                && !edges_touch(edges@[out@[q].0 as int], edges@[out@[q].1 as int]),
            forall|q: int| 0 <= q < t && candidates@[q].0 < edges@.len() && candidates@[q].1 < edges@.len()
                && !edges_touch(edges@[candidates@[q].0 as int], edges@[candidates@[q].1 as int])
                ==> exists|q2: int| 0 <= q2 < out.len() && #[trigger] taken[q2] == q,
        decreases candidates.len() - t,
    {
        let (ei, ej) = candidates[t];
        proof {
            let (q0, e) = choose|q0: int, e: u32| #[trigger] query_hit(qs, q0, e) && ordered(qs[q0].0, e) == (ei as u32, ej as u32);
            assert(qs[q0].0 < edges@.len());
            assert(e < edges@.len());
        }
        let e = edges[ei];
        let f = edges[ej];
        let ghost old_taken = taken;
        let ghost old_len = out.len();
        if !(e[0] == f[0] || e[0] == f[1] || e[1] == f[0] || e[1] == f[1]) {
            out.push((ei, ej));
            proof {
                taken = taken.push(t as int);
            }
        }
        proof {
            assert forall|q: int| 0 <= q < t + 1 && candidates@[q].0 < edges@.len() && candidates@[q].1 < edges@.len()
                && !edges_touch(edges@[candidates@[q].0 as int], edges@[candidates@[q].1 as int])
                implies exists|q2: int| 0 <= q2 < out.len() && #[trigger] taken[q2] == q by {
                if q < t {
                    let q2 = choose|q2: int| 0 <= q2 < old_len && #[trigger] old_taken[q2] == q;
                    assert(taken[q2] == q);
                } else {
                    assert(taken[old_len as int] == q);
                }
            }
        }
        t = t + 1;
    }
    proof {
        assert forall|s: int, t2: int| 0 <= s < t2 < out@.len() implies lex_less(#[trigger] out@[s], #[trigger] out@[t2]) by {
            assert(taken[s] < taken[t2]);
        }
        assert forall|q: int| 0 <= q < out@.len() implies #[trigger] out@[q].0 < edges@.len() && out@[q].1 < edges@.len()
            && queried_pair(qs, out@[q].0 as u32, out@[q].1 as u32)
            && !edges_touch(edges@[out@[q].0 as int], edges@[out@[q].1 as int]) by {
            assert(out@[q] == candidates@[taken[q]]);
        }
        assert forall|a: u32, b: u32| #[trigger] queried_pair(qs, a, b) && !edges_touch(edges@[a as int], edges@[b as int]) implies
            exists|q: int| 0 <= q < out@.len() && out@[q] == (a as usize, b as usize) by {
            let q = choose|q: int| 0 <= q < candidates@.len() && candidates@[q] == (a as usize, b as usize);
            let (q0, e) = choose|q0: int, e: u32| #[trigger] query_hit(qs, q0, e) && ordered(qs[q0].0, e) == (a, b);
            assert(qs[q0].0 < edges@.len());
            assert(e < edges@.len());
            let q2 = choose|q2: int| 0 <= q2 < out.len() && #[trigger] taken[q2] == q;
            assert(out@[q2] == (a as usize, b as usize));
        }
    }
    out
}

} // verus!
