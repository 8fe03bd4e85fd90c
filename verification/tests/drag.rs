use std::collections::HashSet;

use my_webgpu_app::sim::drag::drag_hop_distances;
use my_webgpu_app::sim::shared::build_vertex_neighbors;

fn sets(lists: &[&[u32]]) -> Vec<HashSet<u32>> {
    lists.iter().map(|l| l.iter().copied().collect()).collect()
}

fn path_of_four() -> Vec<HashSet<u32>> {
    // 0 - 1 - 2 - 3
    sets(&[&[1], &[0, 2], &[1, 3], &[2]])
}

fn sorted(mut r: Vec<(usize, usize)>) -> Vec<(usize, usize)> {
    for w in r.windows(2) {
        assert!(w[0].1 <= w[1].1, "hop counts must not decrease along the list");
    }
    r.sort();
    r
}

#[test]
fn drag_hops_stop_at_the_hop_limit() {
    let r = drag_hop_distances(&path_of_four(), 1, 1);
    assert_eq!(r[0], (1, 0));
    assert_eq!(sorted(r), vec![(0, 1), (1, 0), (2, 1)]);
}

#[test]
fn drag_hops_reach_the_whole_component() {
    let r = drag_hop_distances(&path_of_four(), 1, 5);
    assert_eq!(sorted(r), vec![(0, 1), (1, 0), (2, 1), (3, 2)]);
}

#[test]
fn drag_hops_with_zero_limit_keep_only_the_centre() {
    let r = drag_hop_distances(&path_of_four(), 2, 0);
    assert_eq!(r, vec![(2, 0)]);
}

#[test]
fn drag_hops_skip_other_components() {
    // 0 - 1   2 (isolated)
    let g = sets(&[&[1], &[0], &[]]);
    let r = drag_hop_distances(&g, 0, usize::MAX);
    assert_eq!(r, vec![(0, 0), (1, 1)]);
}

#[test]
fn drag_hops_on_a_grid_use_shortest_paths() {
    // 3x3 vertex grid, two triangles per cell, diagonals 0-4, 1-5, 3-7, 4-8.
    let faces: Vec<[u32; 3]> = vec![
        [0, 1, 4], [0, 4, 3], [1, 2, 5], [1, 5, 4],
        [3, 4, 7], [3, 7, 6], [4, 5, 8], [4, 8, 7],
    ];
    let nb = build_vertex_neighbors(&faces, 9);
    let r = drag_hop_distances(&nb, 0, 2);
    assert_eq!(
        sorted(r),
        vec![(0, 0), (1, 1), (2, 2), (3, 1), (4, 1), (5, 2), (6, 2), (7, 2), (8, 2)]
    );
    let r1 = drag_hop_distances(&nb, 0, 1);
    assert_eq!(sorted(r1), vec![(0, 0), (1, 1), (3, 1), (4, 1)]);
}
