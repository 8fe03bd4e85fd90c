use std::collections::HashSet;

use my_webgpu_app::sim::particle_cloth_sim::bendable_diamonds;
use my_webgpu_app::sim::shared::pack;

#[test]
fn bendable_diamonds_drops_only_skipped_shared_edges() {
    let diamonds = vec![[0u32, 2, 1, 3], [5, 4, 6, 7], [2, 8, 9, 1]];
    // Edge (4, 5) is skipped; the diamond lists it as (5, 4).
    let skip: HashSet<u64> = [pack((4, 5))].into_iter().collect();
    assert_eq!(bendable_diamonds(&diamonds, &skip), vec![[0, 2, 1, 3], [2, 8, 9, 1]]);
}

#[test]
fn bendable_diamonds_keeps_everything_without_skips() {
    let diamonds = vec![[0u32, 2, 1, 3], [1, 2, 0, 4]];
    assert_eq!(bendable_diamonds(&diamonds, &HashSet::new()), diamonds);
}

#[test]
fn bendable_diamonds_drops_every_diamond_on_a_skipped_edge() {
    let diamonds = vec![[0u32, 2, 1, 3], [2, 0, 3, 4], [0, 1, 2, 5]];
    let skip: HashSet<u64> = [pack((0, 2))].into_iter().collect();
    assert_eq!(bendable_diamonds(&diamonds, &skip), vec![[0, 1, 2, 5]]);
}
