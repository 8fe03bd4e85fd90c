use std::collections::HashSet;

use my_webgpu_app::bvh::vertex_triangle_pairs;
use my_webgpu_app::sim::shared::build_vertex_neighbors;

fn mesh() -> (Vec<[u32; 3]>, Vec<HashSet<u32>>) {
    // Two triangles sharing vertex 0, and a separate triangle 3-4-5.
    let faces = vec![[0, 1, 2], [3, 4, 5], [0, 6, 7]];
    let nb = build_vertex_neighbors(&faces, 8);
    (faces, nb)
}

#[test]
fn overlapping_disjoint_triangles_yield_every_corner_both_ways() {
    let (faces, nb) = mesh();
    let pairs = vertex_triangle_pairs(&[(0, 1)], &faces, &nb);
    assert_eq!(pairs, vec![(0, 1), (1, 1), (2, 1), (3, 0), (4, 0), (5, 0)]);
}

#[test]
fn triangles_sharing_a_vertex_yield_nothing() {
    let (faces, nb) = mesh();
    assert!(vertex_triangle_pairs(&[(0, 2)], &faces, &nb).is_empty());
}

#[test]
fn repeated_triangle_pairs_are_reported_once_in_order() {
    let (faces, nb) = mesh();
    let pairs = vertex_triangle_pairs(&[(1, 0), (0, 2), (0, 1)], &faces, &nb);
    assert_eq!(pairs, vec![(0, 1), (1, 1), (2, 1), (3, 0), (4, 0), (5, 0)]);
}

#[test]
fn a_corner_next_to_the_other_triangle_is_culled() {
    // Triangles 0-1-2 and 2-3-4 share vertex 2; 1 neighbours 2 as well.
    let faces = vec![[0, 1, 2], [2, 3, 4], [5, 6, 7]];
    let nb = build_vertex_neighbors(&faces, 8);
    let pairs = vertex_triangle_pairs(&[(0, 2)], &faces, &nb);
    assert_eq!(pairs, vec![(0, 2), (1, 2), (2, 2), (5, 0), (6, 0), (7, 0)]);
    assert!(vertex_triangle_pairs(&[(0, 1)], &faces, &nb).is_empty());
}
