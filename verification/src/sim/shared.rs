//! Mesh topology helpers: edges, one-rings, incidence lists and the
//! diamond stencils of interior edges. Faces are vertex-index triples.

use std::collections::{HashMap, HashSet};
use vstd::prelude::*;

use crate::sim::paper_sim::{normalise_edge, spec_normalise_edge};
use crate::sim::sorted_set::{sort_unique, strictly_sorted};

verus! {

broadcast use vstd::std_specs::hash::group_hash_axioms;

/// Every vertex index named by a face is below `num_verts`.
pub open spec fn faces_below(faces: Seq<[u32; 3]>, num_verts: nat) -> bool {
    forall|fi: int, k: int| 0 <= fi < faces.len() && 0 <= k < 3 ==> #[trigger] faces[fi][k] < num_verts
}

/// Faces whose corner list names vertex `v`, among the corners of the first
/// `m` faces (corners taken face by face, in order; a face naming `v` twice
/// is listed twice).
pub open spec fn faces_at(faces: Seq<[u32; 3]>, v: u32, fi: int, k: int) -> Seq<u32>
    decreases fi, k,
{
    if fi <= 0 && k <= 0 {
        Seq::empty()
    } else if k <= 0 {
        faces_at(faces, v, fi - 1, 3)
    } else {
        let prev = faces_at(faces, v, fi, k - 1);
        if faces[fi][k - 1] == v { prev.push(fi as u32) } else { prev }
    }
}

/// For each vertex, the faces that name it, in face order.
pub fn build_vertex_to_faces(faces: &[[u32; 3]], num_verts: usize) -> (r: Vec<Vec<u32>>)
    requires
        faces_below(faces@, num_verts as nat),
        faces@.len() <= u32::MAX,
    ensures
        r.len() == num_verts,
        forall|v: u32| v < num_verts ==> #[trigger] r@[v as int]@ == faces_at(faces@, v, faces@.len() as int, 0),
{
    let mut vtf: Vec<Vec<u32>> = Vec::new();
    let mut v: usize = 0;
    while v < num_verts
        invariant
            0 <= v <= num_verts,
            vtf.len() == v,
            forall|w: int| 0 <= w < v ==> #[trigger] vtf@[w]@ == Seq::<u32>::empty(),
            v <= num_verts,
        decreases num_verts - v,
    {
        vtf.push(Vec::new());
        v = v + 1;
    }
    let mut fi: usize = 0;
    proof {
        assert forall|w: u32| w < num_verts implies #[trigger] vtf@[w as int]@ == faces_at(faces@, w, 0, 0) by {
            assert(vtf@[w as int]@ == Seq::<u32>::empty());
        }
    }
    while fi < faces.len()
        invariant
            0 <= fi <= faces.len(),
            faces@.len() <= u32::MAX,
            faces_below(faces@, num_verts as nat),
            vtf.len() == num_verts,
            forall|w: u32| w < num_verts ==> #[trigger] vtf@[w as int]@ == faces_at(faces@, w, fi as int, 0),
        decreases faces.len() - fi,
    {
        let f = faces[fi];
        let mut k: usize = 0;
        while k < 3
            invariant
                0 <= fi < faces.len(),
                faces@.len() <= u32::MAX,
                f == faces@[fi as int],
                faces_below(faces@, num_verts as nat),
                0 <= k <= 3,
                vtf.len() == num_verts,
                forall|w: u32| w < num_verts ==> #[trigger] vtf@[w as int]@ == faces_at(faces@, w, fi as int, k as int),
            decreases 3 - k,
        {
            let v = f[k];
            assert(v < num_verts) by { assert(faces@[fi as int][k as int] == v); }
            let ghost before = vtf@;
            vtf[v as usize].push(fi as u32);
            proof {
                assert forall|w: u32| w < num_verts implies #[trigger] vtf@[w as int]@ == faces_at(faces@, w, fi as int, (k + 1) as int) by {
                    assert(faces@[fi as int][k as int] == v);
                    if w != v {
                        assert(vtf@[w as int] == before[w as int]);
                    }
                }
            }
            k = k + 1;
        }
        proof {
            assert forall|w: u32| w < num_verts implies #[trigger] vtf@[w as int]@ == faces_at(faces@, w, (fi + 1) as int, 0) by {
                assert(faces_at(faces@, w, (fi + 1) as int, 0) == faces_at(faces@, w, fi as int, 3));
            }
        }
        fi = fi + 1;
    }
    vtf
}

/// Every vertex index named by an edge is below `num_verts`.
pub open spec fn edges_below(edges: Seq<[u32; 2]>, num_verts: nat) -> bool {
    forall|ei: int, k: int| 0 <= ei < edges.len() && 0 <= k < 2 ==> #[trigger] edges[ei][k] < num_verts
}

/// Edges whose endpoint list names vertex `v`, among the endpoints of the
/// first `ei` edges and the first `k` endpoints of edge `ei`.
pub open spec fn edges_at(edges: Seq<[u32; 2]>, v: u32, ei: int, k: int) -> Seq<u32>
    decreases ei, k,
{
    if ei <= 0 && k <= 0 {
        Seq::empty()
    } else if k <= 0 {
        edges_at(edges, v, ei - 1, 2)
    } else {
        let prev = edges_at(edges, v, ei, k - 1);
        if edges[ei][k - 1] == v { prev.push(ei as u32) } else { prev }
    }
}

/// For each vertex, the edges that name it, in edge order.
pub fn build_vertex_to_edges(edges: &[[u32; 2]], num_verts: usize) -> (r: Vec<Vec<u32>>)
    requires
        edges_below(edges@, num_verts as nat),
        edges@.len() <= u32::MAX,
    ensures
        r.len() == num_verts,
        forall|v: u32| v < num_verts ==> #[trigger] r@[v as int]@ == edges_at(edges@, v, edges@.len() as int, 0),
{
    let mut vte: Vec<Vec<u32>> = Vec::new();
    let mut v: usize = 0;
    while v < num_verts
        invariant
            0 <= v <= num_verts,
            vte.len() == v,
            forall|w: int| 0 <= w < v ==> #[trigger] vte@[w]@ == Seq::<u32>::empty(),
        decreases num_verts - v,
    {
        vte.push(Vec::new());
        v = v + 1;
    }
    proof {
        assert forall|w: u32| w < num_verts implies #[trigger] vte@[w as int]@ == edges_at(edges@, w, 0, 0) by {
            assert(vte@[w as int]@ == Seq::<u32>::empty());
        }
    }
    let mut ei: usize = 0;
    while ei < edges.len()
        invariant
            0 <= ei <= edges.len(),
            edges@.len() <= u32::MAX,
            edges_below(edges@, num_verts as nat),
            vte.len() == num_verts,
            forall|w: u32| w < num_verts ==> #[trigger] vte@[w as int]@ == edges_at(edges@, w, ei as int, 0),
        decreases edges.len() - ei,
    {
        let e = edges[ei];
        let a = e[0];
        let b = e[1];
        assert(a < num_verts && b < num_verts) by {
            assert(edges@[ei as int][0] == a);
            assert(edges@[ei as int][1] == b);
        }
        let ghost before = vte@;
        vte[a as usize].push(ei as u32);
        proof {
            assert forall|w: u32| w < num_verts implies #[trigger] vte@[w as int]@ == edges_at(edges@, w, ei as int, 1) by {
                assert(edges@[ei as int][0] == a);
                if w != a {
                    assert(vte@[w as int] == before[w as int]);
                }
            }
        }
        let ghost mid = vte@;
        vte[b as usize].push(ei as u32);
        proof {
            assert forall|w: u32| w < num_verts implies #[trigger] vte@[w as int]@ == edges_at(edges@, w, (ei + 1) as int, 0) by {
                assert(edges@[ei as int][1] == b);
                if w != b {
                    assert(vte@[w as int] == mid[w as int]);
                }
                assert(edges_at(edges@, w, (ei + 1) as int, 0) == edges_at(edges@, w, ei as int, 2));
            }
        }
        ei = ei + 1;
    }
    vte
}

/// `v` and `w` are corners at different positions of one of the first `m` faces.
pub open spec fn share_face(faces: Seq<[u32; 3]>, m: int, v: u32, w: u32) -> bool {
    exists|fi: int, j: int, k: int|
        0 <= fi < m && 0 <= j < 3 && 0 <= k < 3 && j != k && #[trigger] faces[fi][j] == v && #[trigger] faces[fi][k] == w
}

/// Inserts `b` into the neighbor set of `a`.
fn add_neighbor(nb: &mut Vec<HashSet<u32>>, a: u32, b: u32)
    requires
        a < old(nb).len(),
    ensures
        final(nb).len() == old(nb).len(),
        final(nb)@[a as int]@ == old(nb)@[a as int]@.insert(b),
        forall|w: int| 0 <= w < old(nb).len() && w != a ==> #[trigger] final(nb)@[w] == old(nb)@[w],
{
    nb[a as usize].insert(b);
}

/// For each vertex, the set of vertices it shares a face edge with.
pub fn build_vertex_neighbors(faces: &[[u32; 3]], num_verts: usize) -> (r: Vec<HashSet<u32>>)
    requires
        faces_below(faces@, num_verts as nat),
    ensures
        r.len() == num_verts,
        forall|v: u32, w: u32| v < num_verts ==> (#[trigger] r@[v as int]@.contains(w) <==> share_face(faces@, faces@.len() as int, v, w)),
{
    let mut nb: Vec<HashSet<u32>> = Vec::new();
    let mut v: usize = 0;
    while v < num_verts
        invariant
            0 <= v <= num_verts,
            nb.len() == v,
            forall|w: int| 0 <= w < v ==> #[trigger] nb@[w]@ == Set::<u32>::empty(),
        decreases num_verts - v,
    {
        nb.push(HashSet::new());
        v = v + 1;
    }
    let mut fi: usize = 0;
    while fi < faces.len()
        invariant
            0 <= fi <= faces.len(),
            faces_below(faces@, num_verts as nat),
            nb.len() == num_verts,
            forall|v: u32, w: u32| v < num_verts ==> (#[trigger] nb@[v as int]@.contains(w) <==> share_face(faces@, fi as int, v, w)),
        decreases faces.len() - fi,
    {
        let f = faces[fi];
        let (x, y, z) = (f[0], f[1], f[2]);
        assert(x < num_verts && y < num_verts && z < num_verts) by {
            assert(faces@[fi as int][0] == x);
            assert(faces@[fi as int][1] == y);
            assert(faces@[fi as int][2] == z);
        }
        let ghost before = nb@;
        add_neighbor(&mut nb, x, y);
        add_neighbor(&mut nb, y, x);
        add_neighbor(&mut nb, y, z);
        add_neighbor(&mut nb, z, y);
        add_neighbor(&mut nb, z, x);
        add_neighbor(&mut nb, x, z);
        proof {
            let fs = faces@;
            assert(fs[fi as int] == f);
            assert forall|v: u32, w: u32| v < num_verts implies (#[trigger] nb@[v as int]@.contains(w) <==> share_face(fs, (fi + 1) as int, v, w)) by {
                let in_face = (v == x && (w == y || w == z)) || (v == y && (w == x || w == z)) || (v == z && (w == x || w == y));
                assert(nb@[v as int]@.contains(w) <==> (before[v as int]@.contains(w) || in_face));
                if share_face(fs, (fi + 1) as int, v, w) {
                    let (g, j, k) = choose|g: int, j: int, k: int|
                        0 <= g < fi + 1 && 0 <= j < 3 && 0 <= k < 3 && j != k && #[trigger] fs[g][j] == v && #[trigger] fs[g][k] == w;
                    if g < fi {
                        assert(share_face(fs, fi as int, v, w));
                    }
                }
                if share_face(fs, fi as int, v, w) {
                    let (g, j, k) = choose|g: int, j: int, k: int|
                        0 <= g < fi && 0 <= j < 3 && 0 <= k < 3 && j != k && #[trigger] fs[g][j] == v && #[trigger] fs[g][k] == w;
                    assert(0 <= g < fi + 1);
                }
                if in_face {
                    if v == x && w == y { assert(fs[fi as int][0] == v && fs[fi as int][1] == w); }
                    if v == x && w == z { assert(fs[fi as int][0] == v && fs[fi as int][2] == w); }
                    if v == y && w == x { assert(fs[fi as int][1] == v && fs[fi as int][0] == w); }
                    if v == y && w == z { assert(fs[fi as int][1] == v && fs[fi as int][2] == w); }
                    if v == z && w == x { assert(fs[fi as int][2] == v && fs[fi as int][0] == w); }
                    if v == z && w == y { assert(fs[fi as int][2] == v && fs[fi as int][1] == w); }
                }
            }
        }
        fi = fi + 1;
    }
    nb
}

/// Undirected key of the `e`-th edge (corner `e` to corner `e + 1`, wrapping)
/// of face `t / 3`, where `e = t % 3`.
pub open spec fn face_edge_key(faces: Seq<[u32; 3]>, t: int) -> (u32, u32) {
    let f = faces[t / 3];
    let e = t % 3;
    spec_normalise_edge(f[e], f[(e + 1) % 3])
}

/// Keys of all face edges, face by face.
pub open spec fn face_edge_keys(faces: Seq<[u32; 3]>) -> Seq<(u32, u32)> {
    Seq::new(3 * faces.len(), |t: int| face_edge_key(faces, t))
}

/// The distinct elements of `s`, each where it first occurs.
pub open spec fn first_occurrences<A>(s: Seq<A>) -> Seq<A>
    decreases s.len(),
{
    if s.len() == 0 {
        Seq::empty()
    } else {
        let prev = first_occurrences(s.drop_last());
        if s.drop_last().contains(s.last()) { prev } else { prev.push(s.last()) }
    }
}

/// The unique edges of the faces, normalised, in order of first appearance.
pub open spec fn unique_edges(faces: Seq<[u32; 3]>) -> Seq<(u32, u32)> {
    first_occurrences(face_edge_keys(faces))
}

pub(crate) proof fn lemma_first_occurrences(s: Seq<(u32, u32)>)
    ensures
        forall|x: (u32, u32)| #[trigger] first_occurrences(s).contains(x) <==> s.contains(x),
        first_occurrences(s).no_duplicates(),
    decreases s.len(),
{
    if s.len() > 0 {
        let d = s.drop_last();
        let p = first_occurrences(d);
        let last = s.last();
        lemma_first_occurrences(d);
        assert forall|x: (u32, u32)| s.contains(x) <==> (d.contains(x) || x == last) by {
            if s.contains(x) {
                let i = choose|i: int| 0 <= i < s.len() && s[i] == x;
                if i < s.len() - 1 {
                    assert(d[i] == x);
                }
            }
            if d.contains(x) {
                let i = choose|i: int| 0 <= i < d.len() && d[i] == x;
                assert(s[i] == x);
            }
            if x == last {
                assert(s[s.len() - 1] == x);
            }
        }
        if d.contains(last) {
            assert(first_occurrences(s) == p);
        } else {
            let q = p.push(last);
            assert(first_occurrences(s) == q);
            assert forall|x: (u32, u32)| q.contains(x) <==> (p.contains(x) || x == last) by {
                if q.contains(x) {
                    let i = choose|i: int| 0 <= i < q.len() && q[i] == x;
                    if i < p.len() {
                        assert(p[i] == x);
                    }
                }
                if p.contains(x) {
                    let i = choose|i: int| 0 <= i < p.len() && p[i] == x;
                    assert(q[i] == x);
                }
                if x == last {
                    assert(q[p.len() as int] == x);
                }
            }
            assert forall|i: int, j: int| 0 <= i < q.len() && 0 <= j < q.len() && i != j implies q[i] != q[j] by {
                if i < p.len() && j < p.len() {
                } else if i < p.len() {
                    assert(p.contains(q[i]));
                } else {
                    assert(p.contains(q[j]));
                }
            }
        }
    }
}

/// Corner `t % 3` of face `t / 3`: the face slot of the `t`-th face edge.
proof fn lemma_face_slot(fi: int, e: int)
    requires
        0 <= fi,
        0 <= e < 3,
    ensures
        (3 * fi + e) / 3 == fi,
        (3 * fi + e) % 3 == e,
{
}

/// Packs an edge key into one `u64`.
pub open spec fn pack_key(k: (u32, u32)) -> u64 {
    (k.0 as u64 * 0x1_0000_0000 + k.1 as u64) as u64
}

pub proof fn lemma_pack_key_injective(a: (u32, u32), b: (u32, u32))
    ensures
        pack_key(a) == pack_key(b) ==> a == b,
{
    let x = a.0 as int;
    let y = a.1 as int;
    let u = b.0 as int;
    let w = b.1 as int;
    assert(x * 0x1_0000_0000 + y == u * 0x1_0000_0000 + w ==> x == u && y == w) by (nonlinear_arith)
        requires
            0 <= x < 0x1_0000_0000,
            0 <= y < 0x1_0000_0000,
            0 <= u < 0x1_0000_0000,
            0 <= w < 0x1_0000_0000,
    {
        if x * 0x1_0000_0000 + y == u * 0x1_0000_0000 + w {
            if x < u {
                assert(x * 0x1_0000_0000 + y < (x + 1) * 0x1_0000_0000);
                assert((x + 1) * 0x1_0000_0000 <= u * 0x1_0000_0000);
            } else if x > u {
                assert(u * 0x1_0000_0000 + w < (u + 1) * 0x1_0000_0000);
                assert((u + 1) * 0x1_0000_0000 <= x * 0x1_0000_0000);
            }
        }
    }
    assert(x * 0x1_0000_0000 + y <= 0xffff_ffff * 0x1_0000_0000 + 0xffff_ffff) by (nonlinear_arith)
        requires
            0 <= x < 0x1_0000_0000,
            0 <= y < 0x1_0000_0000,
    {
    }
    assert(u * 0x1_0000_0000 + w <= 0xffff_ffff * 0x1_0000_0000 + 0xffff_ffff) by (nonlinear_arith)
        requires
            0 <= u < 0x1_0000_0000,
            0 <= w < 0x1_0000_0000,
    {
    }
}

pub fn pack(k: (u32, u32)) -> (r: u64)
    ensures
        r == pack_key(k),
{
    proof {
        let x = k.0 as int;
        let y = k.1 as int;
        assert(x * 0x1_0000_0000 + y <= 0xffff_ffff * 0x1_0000_0000 + 0xffff_ffff) by (nonlinear_arith)
            requires
                0 <= x < 0x1_0000_0000,
                0 <= y < 0x1_0000_0000,
        {
        }
    }
    k.0 as u64 * 0x1_0000_0000 + k.1 as u64
}

/// The unique edges of the faces, each as `[min, max]`, in order of first
/// appearance (face by face, corner `e` to corner `e + 1`).
pub fn build_edges(faces: &[[u32; 3]]) -> (r: Vec<[u32; 2]>)
    ensures
        r.len() == unique_edges(faces@).len(),
        forall|j: int| 0 <= j < r.len() ==> #[trigger] r@[j][0] == unique_edges(faces@)[j].0 && r@[j][1] == unique_edges(faces@)[j].1,
{
    let ghost keys = face_edge_keys(faces@);
    let mut seen: HashSet<u64> = HashSet::new();
    let mut edges: Vec<[u32; 2]> = Vec::new();
    let mut fi: usize = 0;
    let ghost mut pos: int = 0;
    while fi < faces.len()
        invariant
            pos == 3 * fi,
            keys == face_edge_keys(faces@),
            0 <= fi <= faces.len(),
            edges.len() == first_occurrences(keys.take(pos)).len(),
            forall|j: int| 0 <= j < edges.len() ==> #[trigger] edges@[j][0] == first_occurrences(keys.take(pos))[j].0
                && edges@[j][1] == first_occurrences(keys.take(pos))[j].1,
            forall|k: (u32, u32)| seen@.contains(#[trigger] pack_key(k)) <==> keys.take(pos).contains(k),
            forall|x: u64| #[trigger] seen@.contains(x) ==> exists|k: (u32, u32)| pack_key(k) == x,
        decreases faces.len() - fi,
    {
        let f = faces[fi];
        let mut e: usize = 0;
        while e < 3
            invariant
                pos == 3 * fi + e,
                keys == face_edge_keys(faces@),
                0 <= fi < faces.len(),
                f == faces@[fi as int],
                0 <= e <= 3,
                edges.len() == first_occurrences(keys.take(pos)).len(),
                forall|j: int| 0 <= j < edges.len() ==> #[trigger] edges@[j][0] == first_occurrences(keys.take(pos))[j].0
                    && edges@[j][1] == first_occurrences(keys.take(pos))[j].1,
                forall|k: (u32, u32)| seen@.contains(#[trigger] pack_key(k)) <==> keys.take(pos).contains(k),
                forall|x: u64| #[trigger] seen@.contains(x) ==> exists|k: (u32, u32)| pack_key(k) == x,
            decreases 3 - e,
        {
            let a = f[e];
            let b = f[(e + 1) % 3];
            let key = if a < b { (a, b) } else { (b, a) };
            let ghost t = pos;
            proof {
                lemma_face_slot(fi as int, e as int);
                assert(keys[t] == key);
            }
            let packed = pack(key);
            let fresh = seen.insert(packed);
            proof {
                let before = keys.take(t);
                let after = keys.take(t + 1);
                assert(after.drop_last() == before);
                assert(after.last() == key);
                assert(fresh == !before.contains(key));
                assert forall|k: (u32, u32)| seen@.contains(#[trigger] pack_key(k)) <==> after.contains(k) by {
                    lemma_pack_key_injective(k, key);
                    if after.contains(k) {
                        let i = choose|i: int| 0 <= i < after.len() && after[i] == k;
                        if i < t {
                            assert(before[i] == k);
                        }
                    }
                    if before.contains(k) {
                        let i = choose|i: int| 0 <= i < before.len() && before[i] == k;
                        assert(after[i] == k);
                    }
                }
            }
            proof {
                let before = keys.take(t);
                let after = keys.take(t + 1);
                assert(first_occurrences(after) == if before.contains(key) {
                    first_occurrences(before)
                } else {
                    first_occurrences(before).push(key)
                });
            }
            let ghost old_edges = edges@;
            if fresh {
                let pair: [u32; 2] = [key.0, key.1];
                assert(pair[0] == key.0 && pair[1] == key.1);
                edges.push(pair);
            }
            proof {
                let fo = first_occurrences(keys.take(t + 1));
                assert forall|j: int| 0 <= j < edges.len() implies #[trigger] edges@[j][0] == fo[j].0 && edges@[j][1] == fo[j].1 by {
                    if j < old_edges.len() {
                        assert(edges@[j] == old_edges[j]);
                    }
                }
            }
            e = e + 1;
            proof {
                pos = pos + 1;
            }
        }
        fi = fi + 1;
    }
    proof {
        assert(keys.take(3 * faces.len() as int) == keys);
    }
    edges
}

/// Opposite corner of the `t`-th face edge, and whether the face runs along
/// the edge from its smaller to its larger endpoint.
pub open spec fn face_edge_side(faces: Seq<[u32; 3]>, t: int) -> (u32, bool) {
    let f = faces[t / 3];
    let e = t % 3;
    (f[(e + 2) % 3], f[e] < f[(e + 1) % 3])
}

/// The sides of the first `m` face edges whose key is `key`, in order.
pub open spec fn edge_sides(faces: Seq<[u32; 3]>, key: (u32, u32), m: int) -> Seq<(u32, bool)>
    decreases m,
{
    if m <= 0 {
        Seq::empty()
    } else {
        let prev = edge_sides(faces, key, m - 1);
        if face_edge_key(faces, m - 1) == key { prev.push(face_edge_side(faces, m - 1)) } else { prev }
    }
}

/// Diamond `[a, b, c, d]` of an interior edge `(a, b)` with two sides: `c` is
/// opposite in the face that runs `a -> b` (the first side when neither or
/// both do), `d` in the other.
pub open spec fn diamond_of(key: (u32, u32), sides: Seq<(u32, bool)>) -> [u32; 4] {
    if sides[0].1 {
        [key.0, key.1, sides[0].0, sides[1].0]
    } else {
        [key.0, key.1, sides[1].0, sides[0].0]
    }
}

/// Diamonds of the edges among `ks` that border exactly two faces, in order.
pub open spec fn diamonds_of(faces: Seq<[u32; 3]>, ks: Seq<(u32, u32)>) -> Seq<[u32; 4]>
    decreases ks.len(),
{
    if ks.len() == 0 {
        Seq::empty()
    } else {
        let prev = diamonds_of(faces, ks.drop_last());
        let sides = edge_sides(faces, ks.last(), 3 * faces.len() as int);
        if sides.len() == 2 { prev.push(diamond_of(ks.last(), sides)) } else { prev }
    }
}

proof fn lemma_edge_sides_absent(faces: Seq<[u32; 3]>, key: (u32, u32), m: int)
    requires
        0 <= m <= 3 * faces.len(),
        !face_edge_keys(faces).take(m).contains(key),
    ensures
        edge_sides(faces, key, m) == Seq::<(u32, bool)>::empty(),
    decreases m,
{
    if m > 0 {
        let keys = face_edge_keys(faces);
        assert(keys.take(m)[m - 1] == face_edge_key(faces, m - 1));
        let shorter = keys.take(m - 1);
        let longer = keys.take(m);
        assert forall|x: (u32, u32)| shorter.contains(x) implies longer.contains(x) by {
            let i = choose|i: int| 0 <= i < shorter.len() && shorter[i] == x;
            assert(longer[i] == x);
        }
        lemma_edge_sides_absent(faces, key, m - 1);
    }
}

/// For every interior edge shared by two triangles, the four vertices
/// `[a, b, c, d]` where `(a, b)` is the normalised shared edge; `c` is
/// opposite in the triangle where the edge runs `a -> b` and `d` in the one
/// where it runs `b -> a`. Diamonds come in order of the edge's first
/// appearance among the face edges.
pub fn build_diamonds(faces: &[[u32; 3]]) -> (r: Vec<[u32; 4]>)
    ensures
        r@ == diamonds_of(faces@, unique_edges(faces@)),
{
    let ghost keys = face_edge_keys(faces@);
    let mut index: HashMap<u64, usize> = HashMap::new();
    let mut order: Vec<(u32, u32)> = Vec::new();
    let mut sides: Vec<Vec<(u32, bool)>> = Vec::new();
    let mut fi: usize = 0;
    let ghost mut pos: int = 0;
    while fi < faces.len()
        invariant
            pos == 3 * fi,
            keys == face_edge_keys(faces@),
            0 <= fi <= faces.len(),
            order@ == first_occurrences(keys.take(pos)),
            sides.len() == order.len(),
            forall|j: int| 0 <= j < order.len() ==> #[trigger] sides@[j]@ == edge_sides(faces@, order@[j], pos),
            forall|k: (u32, u32)| index@.contains_key(#[trigger] pack_key(k)) <==> keys.take(pos).contains(k),
            forall|j: int| 0 <= j < order.len() ==> #[trigger] index@[pack_key(order@[j])] == j,
        decreases faces.len() - fi,
    {
        let f = faces[fi];
        let mut e: usize = 0;
        while e < 3
            invariant
                pos == 3 * fi + e,
                keys == face_edge_keys(faces@),
                0 <= fi < faces.len(),
                f == faces@[fi as int],
                0 <= e <= 3,
                order@ == first_occurrences(keys.take(pos)),
                sides.len() == order.len(),
                forall|j: int| 0 <= j < order.len() ==> #[trigger] sides@[j]@ == edge_sides(faces@, order@[j], pos),
                forall|k: (u32, u32)| index@.contains_key(#[trigger] pack_key(k)) <==> keys.take(pos).contains(k),
                forall|j: int| 0 <= j < order.len() ==> #[trigger] index@[pack_key(order@[j])] == j,
            decreases 3 - e,
        {
            let a = f[e];
            let b = f[(e + 1) % 3];
            let opp = f[(e + 2) % 3];
            let key = if a < b { (a, b) } else { (b, a) };
            let side = (opp, a < b);
            let ghost t = pos;
            proof {
                lemma_face_slot(fi as int, e as int);
                assert(keys[t] == key);
                assert(face_edge_side(faces@, t) == side);
                lemma_first_occurrences(keys.take(t));
                lemma_first_occurrences(keys.take(t + 1));
            }
            let ghost before = keys.take(t);
            let ghost after = keys.take(t + 1);
            let ghost old_order = order@;
            let ghost old_sides = sides@;
            proof {
                assert(after.drop_last() == before);
                assert(after.last() == key);
                assert forall|k: (u32, u32)| after.contains(k) <==> (before.contains(k) || k == key) by {
                    if after.contains(k) {
                        let i = choose|i: int| 0 <= i < after.len() && after[i] == k;
                        if i < t {
                            assert(before[i] == k);
                        }
                    }
                    if before.contains(k) {
                        let i = choose|i: int| 0 <= i < before.len() && before[i] == k;
                        assert(after[i] == k);
                    }
                    if k == key {
                        assert(after[t] == k);
                    }
                }
                // other edges gain no side from this face edge
                assert forall|j: int| 0 <= j < old_order.len() && old_order[j] != key implies
                    #[trigger] edge_sides(faces@, old_order[j], t + 1) == edge_sides(faces@, old_order[j], t) by {
                }
            }
            let packed = pack(key);
            let found = index.get(&packed);
            match found {
                Some(j) => {
                    let j = *j;
                    proof {
                        lemma_pack_key_injective(key, key);
                        assert(before.contains(key));
                        assert(old_order.contains(key));
                        let i = choose|i: int| 0 <= i < old_order.len() && old_order[i] == key;
                        assert(index@[pack_key(old_order[i])] == i);
                        assert(j == i);
                        assert(first_occurrences(after) == first_occurrences(before));
                    }
                    sides[j].push(side);
                    proof {
                        assert forall|j2: int| 0 <= j2 < order.len() implies #[trigger] sides@[j2]@ == edge_sides(faces@, order@[j2], t + 1) by {
                            if j2 != j {
                                assert(sides@[j2] == old_sides[j2]);
                                assert(old_order[j2] != old_order[j as int]);
                            }
                        }
                    }
                }
                None => {
                    proof {
                        assert(!before.contains(key));
                        assert(first_occurrences(after) == first_occurrences(before).push(key));
                        lemma_edge_sides_absent(faces@, key, t);
                    }
                    let j = order.len();
                    order.push(key);
                    let mut list: Vec<(u32, bool)> = Vec::new();
                    list.push(side);
                    sides.push(list);
                    index.insert(packed, j);
                    proof {
                        assert forall|j2: int| 0 <= j2 < order.len() implies #[trigger] sides@[j2]@ == edge_sides(faces@, order@[j2], t + 1) by {
                            if j2 < j {
                                assert(sides@[j2] == old_sides[j2]);
                                assert(old_order.contains(old_order[j2]));
                                assert(before.contains(old_order[j2]));
                            } else {
                                assert(edge_sides(faces@, key, t + 1) == Seq::<(u32, bool)>::empty().push(side));
                            }
                        }
                        assert forall|j2: int| 0 <= j2 < order.len() implies #[trigger] index@[pack_key(order@[j2])] == j2 by {
                            if j2 < j {
                                lemma_pack_key_injective(order@[j2], key);
                                assert(old_order[j2] == order@[j2]);
                                assert(old_order.contains(old_order[j2]));
                                assert(before.contains(old_order[j2]));
                            }
                        }
                    }
                }
            }
            proof {
                assert forall|k: (u32, u32)| index@.contains_key(#[trigger] pack_key(k)) <==> after.contains(k) by {
                    lemma_pack_key_injective(k, key);
                }
            }
            e = e + 1;
            proof {
                pos = pos + 1;
            }
        }
        fi = fi + 1;
    }
    proof {
        assert(keys.take(3 * faces.len() as int) == keys);
    }
    let ghost all = order@;
    let mut out: Vec<[u32; 4]> = Vec::new();
    let mut j: usize = 0;
    while j < order.len()
        invariant
            all == order@,
            all == unique_edges(faces@),
            sides.len() == order.len(),
            forall|j2: int| 0 <= j2 < order.len() ==> #[trigger] sides@[j2]@ == edge_sides(faces@, order@[j2], 3 * faces@.len() as int),
            0 <= j <= order.len(),
            out@ == diamonds_of(faces@, all.take(j as int)),
        decreases order.len() - j,
    {
        let key = order[j];
        let list = &sides[j];
        proof {
            assert(all.take(j + 1).drop_last() == all.take(j as int));
            assert(all.take(j + 1).last() == key);
        }
        if list.len() == 2 {
            let (c, d) = if list[0].1 { (list[0].0, list[1].0) } else { (list[1].0, list[0].0) };
            let dia: [u32; 4] = [key.0, key.1, c, d];
            proof {
                assert(dia =~= diamond_of(key, sides@[j as int]@));
            }
            out.push(dia);
        }
        j = j + 1;
    }
    proof {
        assert(all.take(all.len() as int) == all);
    }
    out
}

/// Entries `i < j` of cell `c` exist.
pub open spec fn cell_slot(cells: Seq<Seq<u32>>, c: int, i: int, j: int) -> bool {
    0 <= c < cells.len() && 0 <= i < j < cells[c].len()
}

/// The normalised pair of entries `i`, `j` of cell `c`.
pub open spec fn cell_pair_at(cells: Seq<Seq<u32>>, c: int, i: int, j: int) -> (u32, u32) {
    spec_normalise_edge(cells[c][i], cells[c][j])
}

/// `(a, b)` is the normalised pair of two entries of one cell.
pub open spec fn cell_pair(cells: Seq<Seq<u32>>, a: u32, b: u32) -> bool {
    exists|c: int, i: int, j: int| cell_slot(cells, c, i, j) && #[trigger] cell_pair_at(cells, c, i, j) == (a, b)
}

/// Lexicographic order on index pairs.
pub open spec fn lex_less(p: (usize, usize), q: (usize, usize)) -> bool {
    p.0 < q.0 || (p.0 == q.0 && p.1 < q.1)
}

/// Slot `(c, i, j)` comes before `(c0, i0, j0)` in cell-major order.
pub open spec fn slot_before(c: int, i: int, j: int, c0: int, i0: int, j0: int) -> bool {
    c < c0 || (c == c0 && (i < i0 || (i == i0 && j < j0)))
}

/// Packed keys of the pairs of the slots before `(c0, i0, j0)`.
pub open spec fn packed_before(cells: Seq<Seq<u32>>, c0: int, i0: int, j0: int, x: u64) -> bool {
    exists|c: int, i: int, j: int| cell_slot(cells, c, i, j) && slot_before(c, i, j, c0, i0, j0)
        && #[trigger] pack_key(cell_pair_at(cells, c, i, j)) == x
}

pub(crate) proof fn lemma_pack_key_parts(k: (u32, u32))
    ensures
        pack_key(k) / 0x1_0000_0000 == k.0,
        pack_key(k) % 0x1_0000_0000 == k.1,
{
    let x = k.0 as int;
    let y = k.1 as int;
    assert(x * 0x1_0000_0000 + y <= 0xffff_ffff * 0x1_0000_0000 + 0xffff_ffff) by (nonlinear_arith)
        requires
            0 <= x < 0x1_0000_0000,
            0 <= y < 0x1_0000_0000,
    {
    }
    assert(pack_key(k) == x * 0x1_0000_0000 + y);
    vstd::arithmetic::div_mod::lemma_fundamental_div_mod_converse(pack_key(k) as int, 0x1_0000_0000, x, y);
}

pub(crate) proof fn lemma_pack_key_order(k1: (u32, u32), k2: (u32, u32))
    ensures
        pack_key(k1) < pack_key(k2) <==> (k1.0 < k2.0 || (k1.0 == k2.0 && k1.1 < k2.1)),
{
    let x = k1.0 as int;
    let y = k1.1 as int;
    let u = k2.0 as int;
    let w = k2.1 as int;
    lemma_pack_key_parts(k1);
    lemma_pack_key_parts(k2);
    assert(x * 0x1_0000_0000 + y < u * 0x1_0000_0000 + w <==> (x < u || (x == u && y < w))) by (nonlinear_arith)
        requires
            0 <= x < 0x1_0000_0000,
            0 <= y < 0x1_0000_0000,
            0 <= u < 0x1_0000_0000,
            0 <= w < 0x1_0000_0000,
    {
        if x < u {
            assert(x * 0x1_0000_0000 + y < (x + 1) * 0x1_0000_0000);
            assert((x + 1) * 0x1_0000_0000 <= u * 0x1_0000_0000);
        } else if x > u {
            assert(u * 0x1_0000_0000 + w < (u + 1) * 0x1_0000_0000);
            assert((u + 1) * 0x1_0000_0000 <= x * 0x1_0000_0000);
        }
    }
    assert(x * 0x1_0000_0000 + y <= 0xffff_ffff * 0x1_0000_0000 + 0xffff_ffff) by (nonlinear_arith)
        requires
            0 <= x < 0x1_0000_0000,
            0 <= y < 0x1_0000_0000,
    {
    }
    assert(u * 0x1_0000_0000 + w <= 0xffff_ffff * 0x1_0000_0000 + 0xffff_ffff) by (nonlinear_arith)
        requires
            0 <= u < 0x1_0000_0000,
            0 <= w < 0x1_0000_0000,
    {
    }
}

/// Packed keys of every pair of entries sharing a cell, in cell-major order.
fn raw_cell_pairs(cells: &[Vec<u32>]) -> (r: Vec<u64>)
    ensures
        forall|x: u64| r@.contains(x) <==> packed_before(cells@.map_values(|v: Vec<u32>| v@), cells@.len() as int, 0, 1, x),
{
    let ghost cs = cells@.map_values(|v: Vec<u32>| v@);
    let mut raw: Vec<u64> = Vec::new();
    let mut c: usize = 0;
    while c < cells.len()
        invariant
            cs == cells@.map_values(|v: Vec<u32>| v@),
            0 <= c <= cells.len(),
            forall|x: u64| raw@.contains(x) <==> packed_before(cs, c as int, 0, 1, x),
        decreases cells.len() - c,
    {
        let cell = &cells[c];
        assert(cell@ == cs[c as int]);
        let n = cell.len();
        let mut i: usize = 0;
        while i < n
            invariant
                cs == cells@.map_values(|v: Vec<u32>| v@),
                0 <= c < cells.len(),
                cell@ == cs[c as int],
                n == cell.len(),
                0 <= i <= n,
                forall|x: u64| raw@.contains(x) <==> packed_before(cs, c as int, i as int, (i + 1) as int, x),
            decreases n - i,
        {
            let mut j: usize = i + 1;
            while j < n
                invariant
                    cs == cells@.map_values(|v: Vec<u32>| v@),
                    0 <= c < cells.len(),
                    cell@ == cs[c as int],
                    n == cell.len(),
                    0 <= i < n,
                    i + 1 <= j <= n,
                    forall|x: u64| raw@.contains(x) <==> packed_before(cs, c as int, i as int, j as int, x),
                decreases n - j,
            {
                let key = normalise_edge(cell[i], cell[j]);
                let packed = pack(key);
                let ghost old_raw = raw@;
                raw.push(packed);
                proof {
                    assert(key == cell_pair_at(cs, c as int, i as int, j as int));
                    assert forall|x: u64| raw@.contains(x) <==> packed_before(cs, c as int, i as int, (j + 1) as int, x) by {
                        if raw@.contains(x) {
                            let k = choose|k: int| 0 <= k < raw@.len() && raw@[k] == x;
                            if k < old_raw.len() {
                                assert(old_raw.contains(x));
                                let (c1, i1, j1) = choose|c1: int, i1: int, j1: int| cell_slot(cs, c1, i1, j1)
                                    && slot_before(c1, i1, j1, c as int, i as int, j as int)
                                    && #[trigger] pack_key(cell_pair_at(cs, c1, i1, j1)) == x;
                                assert(slot_before(c1, i1, j1, c as int, i as int, (j + 1) as int));
                            } else {
                                assert(cell_slot(cs, c as int, i as int, j as int));
                                assert(slot_before(c as int, i as int, j as int, c as int, i as int, (j + 1) as int));
                            }
                        }
                        if packed_before(cs, c as int, i as int, (j + 1) as int, x) {
                            let (c1, i1, j1) = choose|c1: int, i1: int, j1: int| cell_slot(cs, c1, i1, j1)
                                && slot_before(c1, i1, j1, c as int, i as int, (j + 1) as int)
                                && #[trigger] pack_key(cell_pair_at(cs, c1, i1, j1)) == x;
                            if slot_before(c1, i1, j1, c as int, i as int, j as int) {
                                assert(old_raw.contains(x));
                                let k = choose|k: int| 0 <= k < old_raw.len() && old_raw[k] == x;
                                assert(raw@[k] == x);
                            } else {
                                assert(c1 == c && i1 == i && j1 == j);
                                assert(raw@[old_raw.len() as int] == x);
                            }
                        }
                    }
                }
                j = j + 1;
            }
            proof {
                assert forall|x: u64| packed_before(cs, c as int, i as int, n as int, x) <==> packed_before(cs, c as int, (i + 1) as int, (i + 2) as int, x) by {
                    if packed_before(cs, c as int, i as int, n as int, x) {
                        let (c1, i1, j1) = choose|c1: int, i1: int, j1: int| cell_slot(cs, c1, i1, j1)
                            && slot_before(c1, i1, j1, c as int, i as int, n as int)
                            && #[trigger] pack_key(cell_pair_at(cs, c1, i1, j1)) == x;
                        assert(slot_before(c1, i1, j1, c as int, (i + 1) as int, (i + 2) as int));
                    }
                    if packed_before(cs, c as int, (i + 1) as int, (i + 2) as int, x) {
                        let (c1, i1, j1) = choose|c1: int, i1: int, j1: int| cell_slot(cs, c1, i1, j1)
                            && slot_before(c1, i1, j1, c as int, (i + 1) as int, (i + 2) as int)
                            && #[trigger] pack_key(cell_pair_at(cs, c1, i1, j1)) == x;
                        assert(slot_before(c1, i1, j1, c as int, i as int, n as int));
                    }
                }
            }
            i = i + 1;
        }
        proof {
            let n1 = (n + 1) as int;
            let c1 = (c + 1) as int;
            assert forall|x: u64| #[trigger] packed_before(cs, c as int, n as int, n1, x) <==> packed_before(cs, c1, 0, 1, x) by {
                if packed_before(cs, c as int, n as int, (n + 1) as int, x) {
                    let (c1, i1, j1) = choose|c1: int, i1: int, j1: int| cell_slot(cs, c1, i1, j1)
                        && slot_before(c1, i1, j1, c as int, n as int, (n + 1) as int)
                        && #[trigger] pack_key(cell_pair_at(cs, c1, i1, j1)) == x;
                    assert(slot_before(c1, i1, j1, (c + 1) as int, 0, 1));
                }
                if packed_before(cs, (c + 1) as int, 0, 1, x) {
                    let (c1, i1, j1) = choose|c1: int, i1: int, j1: int| cell_slot(cs, c1, i1, j1)
                        && slot_before(c1, i1, j1, (c + 1) as int, 0, 1)
                        && #[trigger] pack_key(cell_pair_at(cs, c1, i1, j1)) == x;
                    assert(slot_before(c1, i1, j1, c as int, n as int, (n + 1) as int));
                }
            }
        }
        c = c + 1;
    }
    raw
}

/// Views of the cells' entry lists.
pub open spec fn cell_lists(cells: Seq<Vec<u32>>) -> Seq<Seq<u32>> {
    cells.map_values(|v: Vec<u32>| v@)
}

/// Every pair of entries that share a cell, normalised as `(min, max)`, in
/// increasing lexicographic order, each pair once.
pub fn candidate_pairs(cells: &[Vec<u32>]) -> (r: Vec<(usize, usize)>)
    ensures
        forall|s: int, t: int| 0 <= s < t < r@.len() ==> lex_less(#[trigger] r@[s], #[trigger] r@[t]),
        forall|t: int| 0 <= t < r@.len() ==> #[trigger] r@[t].0 <= u32::MAX && r@[t].1 <= u32::MAX
            && cell_pair(cell_lists(cells@), r@[t].0 as u32, r@[t].1 as u32),
        forall|a: u32, b: u32| #[trigger] cell_pair(cell_lists(cells@), a, b) ==>
            exists|t: int| 0 <= t < r@.len() && r@[t] == (a as usize, b as usize),
{
    let ghost cs = cell_lists(cells@);
    let raw = raw_cell_pairs(cells);
    let sorted = sort_unique(raw.as_slice(), 0, raw.len());
    proof {
        assert(raw@.subrange(0, raw@.len() as int) == raw@);
    }
    let mut out: Vec<(usize, usize)> = Vec::new();
    let mut t: usize = 0;
    let ghost mut ks: Seq<(u32, u32)> = Seq::empty();
    while t < sorted.len()
        invariant
            cs == cell_lists(cells@),
            strictly_sorted(sorted@),
            forall|x: u64| sorted@.to_set().contains(x) <==> packed_before(cs, cs.len() as int, 0, 1, x),
            0 <= t <= sorted.len(),
            out.len() == t,
            ks.len() == t,
            forall|q: int| 0 <= q < t ==> #[trigger] pack_key(ks[q]) == sorted@[q],
            forall|q: int| 0 <= q < t ==> #[trigger] out@[q] == (ks[q].0 as usize, ks[q].1 as usize),
            forall|q: int| 0 <= q < t ==> #[trigger] cell_pair(cs, ks[q].0, ks[q].1),
        decreases sorted.len() - t,
    {
        let x = sorted[t];
        let ghost k: (u32, u32);
        proof {
            assert(sorted@.contains(x));
            assert(sorted@.to_set().contains(x));
            let (c1, i1, j1) = choose|c1: int, i1: int, j1: int| cell_slot(cs, c1, i1, j1)
                && slot_before(c1, i1, j1, cs.len() as int, 0, 1)
                && #[trigger] pack_key(cell_pair_at(cs, c1, i1, j1)) == x;
            k = cell_pair_at(cs, c1, i1, j1);
            lemma_pack_key_parts(k);
            assert(cell_pair(cs, k.0, k.1));
        }
        let a = (x / 0x1_0000_0000) as usize;
        let b = (x % 0x1_0000_0000) as usize;
        let ghost old_out = out@;
        let ghost old_ks = ks;
        out.push((a, b));
        proof {
            ks = ks.push(k);
            assert forall|q: int| 0 <= q < t + 1 implies pack_key(ks[q]) == sorted@[q]
                && out@[q] == (ks[q].0 as usize, ks[q].1 as usize) && cell_pair(cs, ks[q].0, ks[q].1) by {
                if q < t {
                    assert(ks[q] == old_ks[q]);
                    assert(out@[q] == old_out[q]);
                    assert(pack_key(old_ks[q]) == sorted@[q]);
                } else {
                    assert(ks[q] == k);
                    assert(out@[q] == (a, b));
                }
            }
        }
        t = t + 1;
    }
    proof {
        assert forall|s: int, t2: int| 0 <= s < t2 < out@.len() implies lex_less(#[trigger] out@[s], #[trigger] out@[t2]) by {
            assert(pack_key(ks[s]) == sorted@[s]);
            assert(pack_key(ks[t2]) == sorted@[t2]);
            assert(out@[s] == (ks[s].0 as usize, ks[s].1 as usize));
            assert(out@[t2] == (ks[t2].0 as usize, ks[t2].1 as usize));
            lemma_pack_key_order(ks[s], ks[t2]);
        }
        assert forall|q: int| 0 <= q < out@.len() implies #[trigger] out@[q].0 <= u32::MAX && out@[q].1 <= u32::MAX
            && cell_pair(cs, out@[q].0 as u32, out@[q].1 as u32) by {
            assert(out@[q] == (ks[q].0 as usize, ks[q].1 as usize));
            assert(cell_pair(cs, ks[q].0, ks[q].1));
        }
        assert forall|a: u32, b: u32| #[trigger] cell_pair(cs, a, b) implies
            exists|q: int| 0 <= q < out@.len() && out@[q] == (a as usize, b as usize) by {
            let (c1, i1, j1) = choose|c1: int, i1: int, j1: int| cell_slot(cs, c1, i1, j1) && #[trigger] cell_pair_at(cs, c1, i1, j1) == (a, b);
            assert(slot_before(c1, i1, j1, cs.len() as int, 0, 1));
            assert(packed_before(cs, cs.len() as int, 0, 1, pack_key((a, b))));
            assert(sorted@.to_set().contains(pack_key((a, b))));
            let q = choose|q: int| 0 <= q < sorted@.len() && sorted@[q] == pack_key((a, b));
            assert(pack_key(ks[q]) == sorted@[q]);
            lemma_pack_key_injective(ks[q], (a, b));
            assert(out@[q] == (ks[q].0 as usize, ks[q].1 as usize));
            assert(out@[q] == (a as usize, b as usize));
        }
    }
    out
}

/// The two edges share an endpoint.
pub open spec fn edges_touch(e: [u32; 2], f: [u32; 2]) -> bool {
    e[0] == f[0] || e[0] == f[1] || e[1] == f[0] || e[1] == f[1]
}

/// Every cell entry is an edge index.
pub open spec fn cells_name_edges(cells: Seq<Seq<u32>>, num_edges: nat) -> bool {
    forall|c: int, i: int| 0 <= c < cells.len() && 0 <= i < cells[c].len() ==> #[trigger] cells[c][i] < num_edges
}

/// Edge pairs that share a hash cell but no endpoint: the broad-phase
/// candidates for edge-edge contact, in increasing lexicographic order.
pub fn close_edge_edge_pairs(cells: &[Vec<u32>], edges: &[[u32; 2]]) -> (r: Vec<(usize, usize)>)
    requires
        cells_name_edges(cell_lists(cells@), edges@.len() as nat),
    ensures
        forall|s: int, t: int| 0 <= s < t < r@.len() ==> lex_less(#[trigger] r@[s], #[trigger] r@[t]),
        forall|t: int| 0 <= t < r@.len() ==> #[trigger] r@[t].0 < edges@.len() && r@[t].1 < edges@.len()
            && cell_pair(cell_lists(cells@), r@[t].0 as u32, r@[t].1 as u32)
            && !edges_touch(edges@[r@[t].0 as int], edges@[r@[t].1 as int]),
        forall|a: u32, b: u32| #[trigger] cell_pair(cell_lists(cells@), a, b) && !edges_touch(edges@[a as int], edges@[b as int]) ==>
            exists|t: int| 0 <= t < r@.len() && r@[t] == (a as usize, b as usize),
{
    let ghost cs = cell_lists(cells@);
    let candidates = candidate_pairs(cells);
    let mut out: Vec<(usize, usize)> = Vec::new();
    let mut t: usize = 0;
    let ghost mut taken: Seq<int> = Seq::empty();
    while t < candidates.len()
        invariant
            cs == cell_lists(cells@),
            cells_name_edges(cs, edges@.len() as nat),
            0 <= t <= candidates.len(),
            forall|s: int, t2: int| 0 <= s < t2 < candidates@.len() ==> lex_less(#[trigger] candidates@[s], #[trigger] candidates@[t2]),
            forall|q: int| 0 <= q < candidates@.len() ==> #[trigger] candidates@[q].0 <= u32::MAX && candidates@[q].1 <= u32::MAX
                && cell_pair(cs, candidates@[q].0 as u32, candidates@[q].1 as u32),
            taken.len() == out.len(),
            forall|q: int| 0 <= q < out.len() ==> 0 <= #[trigger] taken[q] < t && out@[q] == candidates@[taken[q]],
            forall|q: int, q2: int| 0 <= q < q2 < out.len() ==> #[trigger] taken[q] < #[trigger] taken[q2],
            forall|q: int| 0 <= q < out.len() ==> #[trigger] out@[q].0 < edges@.len() && out@[q].1 < edges@.len()
                && !edges_touch(edges@[out@[q].0 as int], edges@[out@[q].1 as int]),
            forall|q: int| 0 <= q < t && candidates@[q].0 < edges@.len() && candidates@[q].1 < edges@.len()
                && !edges_touch(edges@[candidates@[q].0 as int], edges@[candidates@[q].1 as int])
                ==> exists|q2: int| 0 <= q2 < out.len() && #[trigger] taken[q2] == q,
        decreases candidates.len() - t,
    {
        let (ei, ej) = candidates[t];
        proof {
            let (c1, i1, j1) = choose|c1: int, i1: int, j1: int| cell_slot(cs, c1, i1, j1)
                && #[trigger] cell_pair_at(cs, c1, i1, j1) == (ei as u32, ej as u32);
            assert(cs[c1][i1] < edges@.len());
            assert(cs[c1][j1] < edges@.len());
        }
        let e = edges[ei];
        let f = edges[ej];
        let ghost old_taken = taken;
        let ghost old_len = out.len();
        if !(e[0] == f[0] || e[0] == f[1] || e[1] == f[0] || e[1] == f[1]) {
            out.push((ei, ej));
            proof {
                taken = taken.push(t as int);
            }
        }
        proof {
            assert forall|q: int| 0 <= q < t + 1 && candidates@[q].0 < edges@.len() && candidates@[q].1 < edges@.len()
                && !edges_touch(edges@[candidates@[q].0 as int], edges@[candidates@[q].1 as int])
                implies exists|q2: int| 0 <= q2 < out.len() && #[trigger] taken[q2] == q by {
                if q < t {
                    let q2 = choose|q2: int| 0 <= q2 < old_len && #[trigger] old_taken[q2] == q;
                    assert(taken[q2] == q);
                } else {
                    assert(taken[old_len as int] == q);
                }
            }
        }
        t = t + 1;
    }
    proof {
        assert forall|s: int, t2: int| 0 <= s < t2 < out@.len() implies lex_less(#[trigger] out@[s], #[trigger] out@[t2]) by {
            assert(taken[s] < taken[t2]);
        }
        assert forall|q: int| 0 <= q < out@.len() implies #[trigger] out@[q].0 < edges@.len() && out@[q].1 < edges@.len()
            && cell_pair(cs, out@[q].0 as u32, out@[q].1 as u32)
            && !edges_touch(edges@[out@[q].0 as int], edges@[out@[q].1 as int]) by {
            assert(out@[q] == candidates@[taken[q]]);
        }
        assert forall|a: u32, b: u32| #[trigger] cell_pair(cs, a, b) && !edges_touch(edges@[a as int], edges@[b as int]) implies
            exists|q: int| 0 <= q < out@.len() && out@[q] == (a as usize, b as usize) by {
            let q = choose|q: int| 0 <= q < candidates@.len() && candidates@[q] == (a as usize, b as usize);
            let (c1, i1, j1) = choose|c1: int, i1: int, j1: int| cell_slot(cs, c1, i1, j1) && #[trigger] cell_pair_at(cs, c1, i1, j1) == (a, b);
            assert(cs[c1][i1] < edges@.len());
            assert(cs[c1][j1] < edges@.len());
            let q2 = choose|q2: int| 0 <= q2 < out.len() && #[trigger] taken[q2] == q;
            assert(out@[q2] == (a as usize, b as usize));
        }
    }
    out
}

} // verus!
