use my_webgpu_app::sim::particle_cloth_sim_gpu::{color_dispatches, dispatch_count};
use my_webgpu_app::sim::particle_cloth_sim_gpu::coloring::{
    color_bend, color_constraints, color_edges, color_hinges, validate, Coloring,
};

fn class(c: &Coloring, k: usize) -> Vec<u32> {
    c.idx[c.offsets[k] as usize..c.offsets[k + 1] as usize].to_vec()
}

#[test]
fn empty_constraint_set_has_no_colors() {
    let c = color_constraints(&[], 4);
    assert_eq!(c.idx, Vec::<u32>::new());
    assert_eq!(c.offsets, vec![0]);
    assert_eq!(c.num_colors(), 0);
}

#[test]
fn path_edges_alternate_two_colors() {
    // 0-1-2-3: edges 0 and 2 are independent, edge 1 touches both.
    let edges = [[0u32, 1], [1, 2], [2, 3]];
    let c = color_edges(&edges, 4);
    assert_eq!(c.num_colors(), 2);
    assert_eq!(c.offsets, vec![0, 2, 3]);
    assert_eq!(class(&c, 0), vec![0, 2]);
    assert_eq!(class(&c, 1), vec![1]);
}

#[test]
fn triangle_edges_need_three_colors() {
    let edges = [[0u32, 1], [1, 2], [2, 0]];
    let c = color_edges(&edges, 3);
    assert_eq!(c.num_colors(), 3);
    assert_eq!(c.idx, vec![0, 1, 2]);
    assert_eq!(c.offsets, vec![0, 1, 2, 3]);
}

#[test]
fn star_edges_each_get_their_own_color() {
    let edges = [[0u32, 1], [0, 2], [0, 3], [0, 4]];
    let c = color_edges(&edges, 5);
    assert_eq!(c.num_colors(), 4);
    assert_eq!(c.offsets.last().copied(), Some(4));
}

#[test]
fn greedy_takes_the_lowest_free_color() {
    // Constraint 2 touches 0 (color 0) but not 1 (color 1... no: 1 is independent of 0).
    let a: &[u32] = &[0, 1];
    let b: &[u32] = &[2, 3];
    let c2: &[u32] = &[1, 2];
    let d: &[u32] = &[4];
    let c = color_constraints(&[a, b, c2, d], 5);
    // a, b -> 0; c2 touches both -> 1; d -> 0.
    assert_eq!(class(&c, 0), vec![0, 1, 3]);
    assert_eq!(class(&c, 1), vec![2]);
}

#[test]
fn bend_coloring_uses_only_the_diagonal() {
    // Diamonds share the edge vertices 0,1 but have disjoint diagonals.
    let diamonds = [[0u32, 1, 2, 3], [0, 1, 4, 5], [6, 7, 3, 8]];
    let c = color_bend(&diamonds, 9);
    assert_eq!(c.num_colors(), 2);
    assert_eq!(class(&c, 0), vec![0, 1]);
    assert_eq!(class(&c, 1), vec![2]);
}

#[test]
fn validate_accepts_a_greedy_coloring() {
    let edges = [[0u32, 1], [1, 2], [2, 3], [3, 0], [0, 2]];
    let c = color_edges(&edges, 4);
    let refs: Vec<&[u32]> = edges.iter().map(|e| &e[..]).collect();
    validate(&c, &refs, 4);
}

#[test]
fn num_colors_of_empty_offsets_is_zero() {
    let c = Coloring { idx: vec![], offsets: vec![] };
    assert_eq!(c.num_colors(), 0);
}

#[test]
fn dispatch_counts_round_up() {
    assert_eq!(dispatch_count(0, 256), 0);
    assert_eq!(dispatch_count(1, 256), 1);
    assert_eq!(dispatch_count(256, 256), 1);
    assert_eq!(dispatch_count(257, 256), 2);
    assert_eq!(dispatch_count(1000, 64), 16);
    assert_eq!(dispatch_count(0, 0), 0);
}

#[test]
fn color_dispatches_skip_empty_classes() {
    let c = Coloring { idx: vec![0, 1, 2, 3, 4], offsets: vec![0, 2, 2, 5] };
    assert_eq!(color_dispatches(&c, 64), vec![(0, 2, 1), (2, 3, 1)]);
    assert_eq!(color_dispatches(&c, 2), vec![(0, 2, 1), (2, 3, 2)]);
    // A path of four edges needs two colours of two edges each.
    let g = color_edges(&[[0, 1], [1, 2], [2, 3], [3, 4]], 5);
    assert_eq!(color_dispatches(&g, 1), vec![(0, 2, 2), (2, 2, 2)]);
}

#[test]
fn hinges_sharing_a_vertex_get_different_colors() {
    let c = color_hinges(&[[0, 1, 2, 3], [4, 5, 6, 7], [3, 8, 9, 10]], 11);
    assert_eq!(c.num_colors(), 2);
    assert_eq!(class(&c, 0), vec![0, 1]);
    assert_eq!(class(&c, 1), vec![2]);
}
