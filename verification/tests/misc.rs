use std::collections::HashSet;

use my_webgpu_app::arch::native::harness::create_grid_faces;
use my_webgpu_app::arch::wasm::cloth::{grid_wireframe_indices, Material};
use my_webgpu_app::arch::wasm::input::{arrow_key_index, record_key};
use my_webgpu_app::bvh::is_adjacent;
use my_webgpu_app::sim::crease::{crease_type_from_id, CreaseType};
use my_webgpu_app::sim::paper_sim::{
    crease_bend_triples, diamond_for_edge, edge_to_diamond, fold_direction_of, FoldDirection,
};
use my_webgpu_app::sim::particle_cloth_sim_gpu::build_one_ring_csr;
use my_webgpu_app::text::{plain_line, step_line};

#[test]
fn arrow_keys_and_wasd_map_to_slots() {
    let keys = ["ArrowLeft", "ArrowRight", "ArrowUp", "ArrowDown", "a", "d", "w", "s"];
    for (i, k) in keys.iter().enumerate() {
        assert_eq!(arrow_key_index(k), Some(i));
    }
    assert_eq!(arrow_key_index("A"), Some(4));
    assert_eq!(arrow_key_index("D"), Some(5));
    assert_eq!(arrow_key_index("W"), Some(6));
    assert_eq!(arrow_key_index("S"), Some(7));
    assert_eq!(arrow_key_index("x"), None);
    assert_eq!(arrow_key_index(""), None);
    assert_eq!(arrow_key_index("arrowleft"), None);
}

#[test]
fn held_keys_follow_presses_and_releases() {
    let mut keys = [false; 8];
    assert!(record_key(&mut keys, "ArrowUp", true));
    assert!(record_key(&mut keys, "W", true));
    assert_eq!(keys, [false, false, true, false, false, false, true, false]);
    assert!(record_key(&mut keys, "ArrowUp", false));
    assert_eq!(keys, [false, false, false, false, false, false, true, false]);
    assert!(!record_key(&mut keys, " ", true));
    assert_eq!(keys, [false, false, false, false, false, false, true, false]);
}

#[test]
fn material_kinds() {
    assert_eq!(Material::Cloth.kind(), 0);
    assert_eq!(Material::Paper.kind(), 1);
    assert_eq!(Material::Rigid.kind(), 2);
}

#[test]
fn grid_faces_of_a_three_by_three_grid() {
    let f = create_grid_faces(3);
    assert_eq!(f.len(), 8);
    assert_eq!(f[0], [0, 1, 4]);
    assert_eq!(f[1], [0, 4, 3]);
    assert_eq!(f[2], [1, 2, 5]);
    assert_eq!(f[6], [4, 5, 8]);
    assert_eq!(f[7], [4, 8, 7]);
    assert!(create_grid_faces(1).is_empty());
}

#[test]
fn adjacency_through_corner_or_one_ring() {
    let mut nb = vec![HashSet::new(); 6];
    nb[4].insert(2u32);
    assert!(is_adjacent(1, &[0, 1, 2], &nb));
    assert!(is_adjacent(4, &[0, 1, 2], &nb));
    assert!(!is_adjacent(5, &[0, 1, 2], &nb));
    // A corner needs no neighbor list at all.
    assert!(is_adjacent(9, &[9, 1, 2], &[]));
}

#[test]
fn crease_ids_and_fold_directions() {
    assert_eq!(crease_type_from_id(1), Some(CreaseType::Boundary));
    assert_eq!(crease_type_from_id(2), Some(CreaseType::Mountain));
    assert_eq!(crease_type_from_id(3), Some(CreaseType::Valley));
    assert_eq!(crease_type_from_id(4), None);
    assert_eq!(fold_direction_of(CreaseType::Mountain), Some(FoldDirection::Mountain));
    assert_eq!(fold_direction_of(CreaseType::Valley), Some(FoldDirection::Valley));
    assert_eq!(fold_direction_of(CreaseType::Boundary), None);
}

#[test]
fn crease_bends_are_chain_windows() {
    let chains = vec![vec![1u32, 2, 3, 4], vec![7, 8], vec![5, 6, 9]];
    assert_eq!(crease_bend_triples(&chains), vec![[1, 2, 3], [2, 3, 4], [5, 6, 9]]);
}

#[test]
fn fold_edges_find_their_diamond_either_way_round() {
    let diamonds = [[0u32, 2, 3, 1], [2, 5, 6, 7], [0, 2, 9, 9]];
    let index = edge_to_diamond(&diamonds);
    assert_eq!(diamond_for_edge(&index, &diamonds, 2, 0), Some(2));
    assert_eq!(diamond_for_edge(&index, &diamonds, 5, 2), Some(1));
    assert_eq!(diamond_for_edge(&index, &diamonds, 0, 5), None);
}

#[test]
fn one_ring_csr_rows_are_sorted() {
    let mut rings = vec![HashSet::new(); 3];
    for v in [5u32, 1, 3] {
        rings[0].insert(v);
    }
    rings[2].insert(0u32);
    let (row, col) = build_one_ring_csr(&rings);
    assert_eq!(row, vec![0, 3, 3, 4]);
    assert_eq!(col, vec![1, 3, 5, 0]);
}

#[test]
fn step_and_plain_lines() {
    assert_eq!(step_line("[x=", 0, "m"), "[x=0] m");
    assert_eq!(step_line("", 9876543210, ""), "9876543210] ");
    assert_eq!(plain_line("ab", "cd"), "abcd");
}

#[test]
fn grid_wireframe_joins_right_and_down_neighbours() {
    assert_eq!(grid_wireframe_indices(2), vec![0, 1, 0, 2, 1, 3, 2, 3]);
    assert!(grid_wireframe_indices(1).is_empty());
    assert!(grid_wireframe_indices(0).is_empty());
    let w = grid_wireframe_indices(3);
    assert_eq!(w.len(), 2 * 12);
    assert_eq!(&w[..4], &[0, 1, 0, 3]);
}
