use my_webgpu_app::arch::native::harness::create_grid_faces;
use my_webgpu_app::arch::wasm::harness::central_fold_edges;
use my_webgpu_app::sim::paper_sim::plan_hinges;
use my_webgpu_app::sim::shared::build_diamonds;

#[test]
fn central_fold_runs_down_the_middle_column() {
    assert_eq!(central_fold_edges(3), vec![(1, 4), (4, 7)]);
    assert_eq!(central_fold_edges(4), vec![(2, 6), (6, 10), (10, 14)]);
    assert!(central_fold_edges(1).is_empty());
}

#[test]
fn hinge_plan_pairs_folds_with_diamonds_and_counts_the_rest() {
    let quad: Vec<[u32; 3]> = vec![[0, 1, 2], [0, 2, 3]];
    let diamonds = build_diamonds(&quad);
    assert_eq!(diamonds.len(), 1);
    // The diagonal, given either way round, has the one diamond; the
    // boundary edge 0-1 has none.
    let (plan, dropped) = plan_hinges(&diamonds, &[(2, 0), (0, 1), (0, 2)]);
    assert_eq!(plan, vec![(0, 0), (2, 0)]);
    assert_eq!(dropped, 1);
}

#[test]
fn central_fold_of_a_grid_has_a_hinge_on_every_edge() {
    let faces = create_grid_faces(3);
    let diamonds = build_diamonds(&faces);
    let folds = central_fold_edges(3);
    let (plan, dropped) = plan_hinges(&diamonds, &folds);
    assert_eq!(dropped, 0);
    assert_eq!(plan.len(), 2);
    for (fi, di) in plan {
        let d = diamonds[di];
        let key = if d[0] < d[1] { (d[0], d[1]) } else { (d[1], d[0]) };
        assert_eq!(key, folds[fi]);
    }
}

#[test]
fn hinge_plan_on_a_grid_has_one_hinge_per_interior_fold_edge() {
    let n = 8;
    let diamonds = build_diamonds(&create_grid_faces(n));
    let (plan, dropped) = plan_hinges(&diamonds, &central_fold_edges(n));
    assert_eq!(plan.len(), n - 1);
    assert_eq!(dropped, 0);
    assert!(plan.iter().all(|&(_, di)| di < diamonds.len()));
}

#[test]
fn hinge_plan_drops_boundary_and_unknown_edges() {
    let n = 8;
    let diamonds = build_diamonds(&create_grid_faces(n));
    let mut folds = central_fold_edges(n);
    folds.push((0, 1));
    folds.push((999, 1000));
    let (plan, dropped) = plan_hinges(&diamonds, &folds);
    assert_eq!(plan.len(), n - 1);
    assert_eq!(dropped, 2);
}
