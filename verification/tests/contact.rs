use std::collections::HashSet;

use my_webgpu_app::sim::contact::{
    admissible_vertex_triangle_pairs, dirty_edge_edge_pairs, incident_union, particle_contact_partners,
};

fn set(xs: &[u32]) -> HashSet<u32> {
    xs.iter().copied().collect()
}

#[test]
fn vertex_triangle_filter_drops_own_and_neighbouring_faces() {
    let faces: Vec<[u32; 3]> = vec![[0, 1, 2], [3, 4, 5], [6, 7, 8]];
    let mut neighbors: Vec<HashSet<u32>> = vec![HashSet::new(); 10];
    neighbors[9] = set(&[3]);
    let mut r = admissible_vertex_triangle_pairs(&faces, &neighbors, 9, &set(&[0, 1, 2]));
    r.sort();
    assert_eq!(r, vec![(9, 0), (9, 2)]);

    let r0 = admissible_vertex_triangle_pairs(&faces, &neighbors, 0, &set(&[0, 1]));
    assert_eq!(r0, vec![(0, 1)]);
}

#[test]
fn vertex_triangle_filter_of_no_candidates_is_empty() {
    let faces: Vec<[u32; 3]> = vec![[0, 1, 2]];
    let neighbors: Vec<HashSet<u32>> = vec![HashSet::new(); 4];
    assert!(admissible_vertex_triangle_pairs(&faces, &neighbors, 3, &HashSet::new()).is_empty());
}

#[test]
fn dirty_edge_pairs_are_normalised_deduplicated_and_filtered() {
    let edges: Vec<[u32; 2]> = vec![[0, 1], [1, 2], [2, 3], [3, 4]];
    // Edge 0 finds 1, 2 and itself; edge 3 finds 0 (the pair (0, 3) twice).
    let queries = vec![(0u32, set(&[1, 2, 0, 3])), (3u32, set(&[0]))];
    let r = dirty_edge_edge_pairs(&queries, &edges);
    // (0, 1) shares vertex 1 and is dropped.
    assert_eq!(r, vec![(0, 2), (0, 3)]);
}

#[test]
fn dirty_edge_pairs_from_a_higher_edge_come_out_smaller_first() {
    let edges: Vec<[u32; 2]> = vec![[0, 1], [2, 3], [4, 5]];
    let queries = vec![(2u32, set(&[1, 0]))];
    assert_eq!(dirty_edge_edge_pairs(&queries, &edges), vec![(0, 2), (1, 2)]);
}

#[test]
fn incident_union_collects_the_lists_of_moved_vertices() {
    let lists: Vec<Vec<u32>> = vec![vec![0, 1], vec![1, 2], vec![5]];
    let dirty: HashSet<usize> = [0usize, 2].into_iter().collect();
    assert_eq!(incident_union(&lists, &dirty), set(&[0, 1, 5]));
    assert!(incident_union(&lists, &HashSet::new()).is_empty());
}

#[test]
fn particle_partners_are_later_and_outside_the_one_ring() {
    let one_ring = vec![set(&[1]), set(&[0, 2]), set(&[1])];
    // Particle 0 sees itself, its ring neighbour 1 and particle 2.
    assert_eq!(particle_contact_partners(&one_ring, 0, &[0, 1, 2, 2]), vec![2, 2]);
    assert_eq!(particle_contact_partners(&one_ring, 1, &[0, 1, 2]), Vec::<u32>::new());
    assert_eq!(particle_contact_partners(&one_ring, 2, &[0, 1]), Vec::<u32>::new());
}
