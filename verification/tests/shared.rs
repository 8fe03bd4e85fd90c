use std::collections::HashSet;

use my_webgpu_app::sim::shared::{
    build_diamonds, build_edges, build_vertex_neighbors, build_vertex_to_edges, build_vertex_to_faces,
    candidate_pairs, close_edge_edge_pairs,
};

fn quad() -> Vec<[u32; 3]> {
    // Two CCW triangles sharing the diagonal 0-2 of the unit square 0,1,2,3.
    vec![[0, 1, 2], [0, 2, 3]]
}

#[test]
fn build_edges_lists_each_edge_once_in_first_appearance_order() {
    let e = build_edges(&quad());
    assert_eq!(e, vec![[0, 1], [1, 2], [0, 2], [2, 3], [0, 3]]);
}

#[test]
fn build_edges_normalises_reversed_edges() {
    let e = build_edges(&[[2, 1, 0]]);
    assert_eq!(e, vec![[1, 2], [0, 1], [0, 2]]);
}

#[test]
fn vertex_to_faces_lists_incident_faces_in_order() {
    let vtf = build_vertex_to_faces(&quad(), 4);
    assert_eq!(vtf, vec![vec![0, 1], vec![0], vec![0, 1], vec![1]]);
}

#[test]
fn vertex_to_edges_lists_incident_edges_in_order() {
    let edges = [[0u32, 1], [1, 2], [0, 2]];
    let vte = build_vertex_to_edges(&edges, 4);
    assert_eq!(vte, vec![vec![0, 2], vec![0, 1], vec![1, 2], vec![]]);
}

#[test]
fn vertex_neighbors_are_face_corner_pairs() {
    let nb = build_vertex_neighbors(&quad(), 5);
    let set = |v: &[u32]| v.iter().copied().collect::<HashSet<u32>>();
    assert_eq!(nb[0], set(&[1, 2, 3]));
    assert_eq!(nb[1], set(&[0, 2]));
    assert_eq!(nb[2], set(&[0, 1, 3]));
    assert_eq!(nb[3], set(&[0, 2]));
    assert!(nb[4].is_empty());
}

#[test]
fn diamonds_of_a_quad_is_the_shared_diagonal() {
    // Edge 0-2 runs 2->0 in face [0,1,2] (backward) and 0->2 in face [0,2,3] (forward).
    let d = build_diamonds(&quad());
    assert_eq!(d, vec![[0, 2, 3, 1]]);
}

#[test]
fn diamonds_skip_boundary_and_nonmanifold_edges() {
    // Three faces fan around edge 0-1: it has three sides, so no diamond.
    let faces = [[0u32, 1, 2], [1, 0, 3], [0, 1, 4]];
    assert_eq!(build_diamonds(&faces), Vec::<[u32; 4]>::new());
    // A single triangle has only boundary edges.
    assert_eq!(build_diamonds(&[[0, 1, 2]]), Vec::<[u32; 4]>::new());
}

#[test]
fn diamonds_follow_edge_first_appearance() {
    // A strip of three triangles: interior edges 1-2 then 2-3.
    let faces = [[0u32, 1, 2], [2, 1, 3], [2, 3, 4]];
    let d = build_diamonds(&faces);
    assert_eq!(d, vec![[1, 2, 0, 3], [2, 3, 4, 1]]);
}

#[test]
fn close_edge_pairs_share_a_cell_but_no_endpoint() {
    let cells: Vec<Vec<u32>> = vec![vec![0, 1, 2], vec![2, 1], vec![3]];
    let edges: Vec<[u32; 2]> = vec![[0, 1], [1, 2], [3, 4], [5, 6]];
    assert_eq!(candidate_pairs(&cells), vec![(0, 1), (0, 2), (1, 2)]);
    assert_eq!(close_edge_edge_pairs(&cells, &edges), vec![(0, 2), (1, 2)]);
    assert!(close_edge_edge_pairs(&[], &edges).is_empty());
}
