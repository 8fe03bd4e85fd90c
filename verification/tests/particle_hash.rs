use my_webgpu_app::sim::particle_cloth_sim_gpu::next_prime as next_prime_saturating;
use my_webgpu_app::sim::particle_hash::{hash_cell, is_prime, next_prime, ParticleHash};

#[test]
fn is_prime_on_small_numbers() {
    let primes: Vec<u32> = (0..40).filter(|&n| is_prime(n)).collect();
    assert_eq!(primes, vec![2, 3, 5, 7, 11, 13, 17, 19, 23, 29, 31, 37]);
}

#[test]
fn is_prime_on_a_square_and_a_large_prime() {
    assert!(!is_prime(49));
    assert!(!is_prime(65535u32 * 65535));
    assert!(is_prime(2147483647));
}

#[test]
fn next_prime_skips_even_starts() {
    assert_eq!(next_prime(0), 2);
    assert_eq!(next_prime(1), 2);
    assert_eq!(next_prime(2), 3);
    assert_eq!(next_prime(31), 31);
    assert_eq!(next_prime(32), 37);
    assert_eq!(next_prime(200), 211);
}

#[test]
fn saturating_next_prime_matches_on_ordinary_input() {
    for n in [0u32, 1, 2, 3, 24, 31, 100, 1000, 65536] {
        assert_eq!(next_prime_saturating(n), next_prime(n));
    }
    assert_eq!(next_prime_saturating(4294967290), 4294967291);
}

#[test]
fn hash_cell_exact_value() {
    // 1*73856093 ^ 2*19349663 ^ 3*83492791 = 73856093 ^ 38699326 ^ 250478373
    let h = (73856093i64 ^ 38699326i64 ^ 250478373i64) as u64;
    assert_eq!(hash_cell(1, 2, 3, 31), (h % 31) as u32);
    assert_eq!(hash_cell(0, 0, 0, 31), 0);
}

#[test]
fn hash_cell_of_negative_cell_wraps_and_stays_in_table() {
    let ts = 37;
    let r = hash_cell(-1, -1, -1, ts);
    let x = (-73856093i64 ^ -19349663i64 ^ -83492791i64) as u64;
    assert_eq!(r, (x % ts as u64) as u32);
    assert!(r < ts);
}

#[test]
fn new_sizes_the_table_from_the_particle_count() {
    let h = ParticleHash::new(10);
    assert_eq!(h.table_size(), 31);
    assert_eq!(h.cell_start.len(), 32);
    assert_eq!(h.particle_id, vec![0; 10]);
    let h = ParticleHash::new(100);
    assert_eq!(h.table_size(), 211);
}

#[test]
fn rebuild_groups_particles_by_cell_bucket() {
    let mut h = ParticleHash::new(4);
    let cells = [(0, 0, 0), (5, 5, 5), (0, 0, 0), (1, 0, 0)];
    h.rebuild(&cells);
    let ts = h.table_size();
    let k0 = hash_cell(0, 0, 0, ts) as usize;
    let s = h.cell_start[k0] as usize;
    let e = h.cell_start[k0 + 1] as usize;
    assert_eq!(&h.particle_id[s..e], &[0, 2]);
    assert_eq!(*h.cell_start.last().unwrap(), 4);
    let mut all = h.particle_id.clone();
    all.sort();
    assert_eq!(all, vec![0, 1, 2, 3]);
}

#[test]
fn neighbor_candidates_include_adjacent_cells_only_up_to_aliasing() {
    let mut h = ParticleHash::new(3);
    let cells = [(0, 0, 0), (1, 1, 1), (10, 10, 10)];
    h.rebuild(&cells);
    let near = h.neighbor_candidates((0, 0, 0));
    assert!(near.contains(&0));
    assert!(near.contains(&1));
    let far = h.neighbor_candidates((10, 10, 9));
    assert!(far.contains(&2));
}
