use std::collections::HashSet;

use my_webgpu_app::arch::wasm::scene::subdivide_faces;
use my_webgpu_app::sim::shared::build_edges;

#[test]
fn one_triangle_splits_into_four() {
    let (faces, mids) = subdivide_faces(&[[0, 1, 2]], 3);
    assert_eq!(mids, vec![[0, 1], [1, 2], [0, 2]]);
    assert_eq!(faces, vec![[0, 3, 5], [1, 4, 3], [2, 5, 4], [3, 4, 5]]);
}

#[test]
fn shared_edges_get_one_midpoint() {
    // Two triangles sharing edge 0-2.
    let (faces, mids) = subdivide_faces(&[[0, 1, 2], [0, 2, 3]], 4);
    assert_eq!(mids, vec![[0, 1], [1, 2], [0, 2], [2, 3], [0, 3]]);
    // Midpoint of 0-2 is vertex 6 in both faces.
    assert_eq!(faces[0], [0, 4, 6]);
    assert_eq!(faces[4], [0, 6, 8]);
}

#[test]
fn subdivided_octahedron_stays_a_closed_sphere() {
    let mut faces: Vec<[u32; 3]> = vec![
        [0, 2, 4], [2, 1, 4], [1, 3, 4], [3, 0, 4],
        [2, 0, 5], [1, 2, 5], [3, 1, 5], [0, 3, 5],
    ];
    let mut num_verts: u32 = 6;
    for _ in 0..3 {
        let (next, mids) = subdivide_faces(&faces, num_verts);
        num_verts += mids.len() as u32;
        faces = next;
    }
    assert_eq!(faces.len(), 512);
    assert_eq!(num_verts, 258);
    let edges = build_edges(&faces);
    // Euler characteristic of a sphere.
    assert_eq!(num_verts as i64 - edges.len() as i64 + faces.len() as i64, 2);
    let used: HashSet<u32> = faces.iter().flat_map(|f| f.iter().copied()).collect();
    assert_eq!(used.len(), 258);
}
