//! Topology of the subdivided octahedron used for sphere meshes.

use std::collections::HashMap;
use vstd::prelude::*;

use crate::sim::paper_sim::{normalise_edge, spec_normalise_edge};
use crate::sim::shared::{
    build_edges, face_edge_keys, lemma_first_occurrences, lemma_pack_key_injective, pack, pack_key,
    unique_edges,
};

verus! {

broadcast use vstd::std_specs::hash::group_hash_axioms;

/// The vertex added on edge `(a, b)` when the faces are split: new vertices
/// follow the `num_verts` old ones, one per distinct edge, in order of first
/// appearance.
pub open spec fn midpoint_of(faces: Seq<[u32; 3]>, num_verts: int, a: u32, b: u32) -> u32 {
    (num_verts + unique_edges(faces).index_of(spec_normalise_edge(a, b))) as u32
}

/// The four triangles a face is split into: one at each corner and the
/// middle one.
pub open spec fn split_face(f: [u32; 3], ab: u32, bc: u32, ca: u32) -> Seq<[u32; 3]> {
    seq![[f[0], ab, ca], [f[1], bc, ab], [f[2], ca, bc], [ab, bc, ca]]
}

/// The split faces of face `i`.
pub open spec fn split_of(faces: Seq<[u32; 3]>, num_verts: int, i: int) -> Seq<[u32; 3]> {
    let f = faces[i];
    split_face(
        f,
        midpoint_of(faces, num_verts, f[0], f[1]),
        midpoint_of(faces, num_verts, f[1], f[2]),
        midpoint_of(faces, num_verts, f[2], f[0]),
    )
}

/// Splits every triangle into four at the midpoints of its edges. Returns
/// the new faces (four per face, in face order) and, for each new vertex in
/// order (numbered from `num_verts`), the edge it sits on.
pub fn subdivide_faces(faces: &[[u32; 3]], num_verts: u32) -> (r: (Vec<[u32; 3]>, Vec<[u32; 2]>))
    requires
        num_verts + unique_edges(faces@).len() <= u32::MAX + 1,
        4 * faces.len() <= usize::MAX,
    ensures
        r.1.len() == unique_edges(faces@).len(),
        forall|j: int| 0 <= j < r.1.len() ==> #[trigger] r.1@[j][0] == unique_edges(faces@)[j].0 && r.1@[j][1] == unique_edges(faces@)[j].1,
        r.0.len() == 4 * faces.len(),
        forall|i: int, k: int| 0 <= i < faces.len() && 0 <= k < 4 ==> #[trigger] r.0@[4 * i + k] == split_of(faces@, num_verts as int, i)[k],
{
    let ghost ue = unique_edges(faces@);
    let edges = build_edges(faces);
    proof {
        lemma_first_occurrences(face_edge_keys(faces@));
    }
    let mut index: HashMap<u64, u32> = HashMap::new();
    let mut j: usize = 0;
    while j < edges.len()
        invariant
            ue == unique_edges(faces@),
            ue.no_duplicates(),
            edges.len() == ue.len(),
            forall|t: int| 0 <= t < edges.len() ==> #[trigger] edges@[t][0] == ue[t].0 && edges@[t][1] == ue[t].1,
            num_verts + ue.len() <= u32::MAX + 1,
            0 <= j <= edges.len(),
            forall|k: (u32, u32)| #[trigger] index@.contains_key(pack_key(k)) ==> ue.take(j as int).contains(k)
                && index@[pack_key(k)] == num_verts + ue.index_of(k),
            forall|t: int| 0 <= t < j ==> #[trigger] index@.contains_key(pack_key(ue[t])),
        decreases edges.len() - j,
    {
        let e = edges[j];
        let key = (e[0], e[1]);
        assert(key == ue[j as int]);
        assert(ue.index_of(key) == j as int) by {
            assert(ue[j as int] == key);
            let q = ue.index_of(key);
            assert(0 <= q < ue.len() && ue[q] == key);
        }
        let value = num_verts + j as u32;
        index.insert(pack(key), value);
        proof {
            assert forall|k: (u32, u32)| #[trigger] index@.contains_key(pack_key(k)) implies ue.take(j + 1).contains(k)
                && index@[pack_key(k)] == num_verts + ue.index_of(k) by {
                lemma_pack_key_injective(k, key);
                if k == key {
                    assert(ue.take(j + 1)[j as int] == k);
                } else {
                    let q = choose|q: int| 0 <= q < ue.take(j as int).len() && ue.take(j as int)[q] == k;
                    assert(ue.take(j + 1)[q] == k);
                }
            }
            assert forall|t: int| 0 <= t < j + 1 implies #[trigger] index@.contains_key(pack_key(ue[t])) by {
                if t < j {
                    assert(index@.contains_key(pack_key(ue[t])));
                }
            }
        }
        j = j + 1;
    }
    let mut out: Vec<[u32; 3]> = Vec::new();
    let mut i: usize = 0;
    while i < faces.len()
        invariant
            ue == unique_edges(faces@),
            ue.no_duplicates(),
            forall|x: (u32, u32)| ue.contains(x) <==> face_edge_keys(faces@).contains(x),
            4 * faces.len() <= usize::MAX,
            0 <= i <= faces.len(),
            out.len() == 4 * i,
            forall|k: (u32, u32)| #[trigger] index@.contains_key(pack_key(k)) ==> index@[pack_key(k)] == num_verts + ue.index_of(k),
            forall|t: int| 0 <= t < ue.len() ==> #[trigger] index@.contains_key(pack_key(ue[t])),
            forall|i2: int, k: int| 0 <= i2 < i && 0 <= k < 4 ==> #[trigger] out@[4 * i2 + k] == split_of(faces@, num_verts as int, i2)[k],
        decreases faces.len() - i,
    {
        let f = faces[i];
        let ab = lookup_midpoint(&index, faces, Ghost(num_verts as int), f[0], f[1], Ghost(3 * i as int));
        let bc = lookup_midpoint(&index, faces, Ghost(num_verts as int), f[1], f[2], Ghost(3 * i + 1));
        let ca = lookup_midpoint(&index, faces, Ghost(num_verts as int), f[2], f[0], Ghost(3 * i + 2));
        let ghost before = out@;
        out.push([f[0], ab, ca]);
        out.push([f[1], bc, ab]);
        out.push([f[2], ca, bc]);
        out.push([ab, bc, ca]);
        proof {
            assert forall|i2: int, k: int| 0 <= i2 < i + 1 && 0 <= k < 4 implies #[trigger] out@[4 * i2 + k] == split_of(faces@, num_verts as int, i2)[k] by {
                if i2 < i {
                    assert(out@[4 * i2 + k] == before[4 * i2 + k]);
                }
            }
        }
        i = i + 1;
    }
    (out, edges)
}

/// The new vertex on edge `(a, b)`, the edge being face edge `t` (so that
/// it is among the unique edges).
fn lookup_midpoint(
    index: &HashMap<u64, u32>,
    faces: &[[u32; 3]],
    Ghost(num_verts): Ghost<int>,
    a: u32,
    b: u32,
    Ghost(t): Ghost<int>,
) -> (m: u32)
    requires
        0 <= t < 3 * faces.len(),
        face_edge_keys(faces@)[t] == spec_normalise_edge(a, b),
        forall|x: (u32, u32)| unique_edges(faces@).contains(x) <==> face_edge_keys(faces@).contains(x),
        forall|k: (u32, u32)| #[trigger] index@.contains_key(pack_key(k)) ==> index@[pack_key(k)] == num_verts + unique_edges(faces@).index_of(k),
        forall|q: int| 0 <= q < unique_edges(faces@).len() ==> #[trigger] index@.contains_key(pack_key(unique_edges(faces@)[q])),
    ensures
        m == midpoint_of(faces@, num_verts, a, b),
{
    let key = normalise_edge(a, b);
    proof {
        assert(face_edge_keys(faces@).contains(key));
        assert(unique_edges(faces@).contains(key));
        let q = choose|q: int| 0 <= q < unique_edges(faces@).len() && unique_edges(faces@)[q] == key;
        assert(index@.contains_key(pack_key(unique_edges(faces@)[q])));
    }
    match index.get(&pack(key)) {
        Some(m) => *m,
        None => 0,
    }
}

} // verus!
