use my_webgpu_app::sim::crease::{fold_chains, fold_edge_types, merge_fold_edges, CreaseType};

#[test]
fn fold_edges_keep_each_fold_key_once_with_its_last_type() {
    let edges = [
        (3, 1, CreaseType::Mountain),
        (0, 1, CreaseType::Boundary),
        (1, 3, CreaseType::Valley),
        (2, 4, CreaseType::Mountain),
    ];
    assert_eq!(
        fold_edge_types(&edges),
        vec![((1, 3), CreaseType::Valley), ((2, 4), CreaseType::Mountain)]
    );
}

#[test]
fn boundary_constraints_are_no_fold_edges() {
    let edges = [(0, 1, CreaseType::Boundary), (1, 2, CreaseType::Boundary)];
    assert!(fold_edge_types(&edges).is_empty());
}

#[test]
fn chains_split_where_an_edge_is_not_a_fold_edge() {
    let chains = vec![
        (vec![0, 1, 2, 3, 4], CreaseType::Mountain),
        (vec![5, 6], CreaseType::Boundary),
        (vec![7, 8, 9], CreaseType::Valley),
        (vec![4, 3], CreaseType::Valley),
    ];
    let folds = [
        ((0, 1), CreaseType::Mountain),
        ((1, 2), CreaseType::Mountain),
        ((3, 4), CreaseType::Mountain),
        ((5, 6), CreaseType::Mountain),
        ((8, 9), CreaseType::Valley),
    ];
    assert_eq!(
        fold_chains(&chains, &folds),
        vec![vec![0, 1, 2], vec![3, 4], vec![8, 9], vec![4, 3]]
    );
}

#[test]
fn chains_without_fold_edges_give_nothing() {
    let chains = vec![(vec![0, 1, 2], CreaseType::Mountain), (vec![3], CreaseType::Valley), (vec![], CreaseType::Valley)];
    assert!(fold_chains(&chains, &[]).is_empty());
}

#[test]
fn every_crease_chain_step_is_a_fold_edge() {
    let edges = [
        (0, 1, CreaseType::Mountain),
        (2, 1, CreaseType::Mountain),
        (3, 4, CreaseType::Valley),
        (4, 5, CreaseType::Boundary),
    ];
    let folds = fold_edge_types(&edges);
    let chains = vec![(vec![0, 1, 2, 3, 4, 5], CreaseType::Mountain)];
    let runs = fold_chains(&chains, &folds);
    assert_eq!(runs, vec![vec![0, 1, 2], vec![3, 4]]);
    for run in &runs {
        assert!(run.len() >= 2);
        for w in run.windows(2) {
            let key = if w[0] < w[1] { (w[0], w[1]) } else { (w[1], w[0]) };
            assert!(folds.iter().any(|(k, _)| *k == key));
        }
    }
}

#[test]
fn merging_keeps_existing_types_and_counts_new_keys() {
    let base = [((1, 2), CreaseType::Mountain), ((3, 4), CreaseType::Valley)];
    let extra = [((3, 4), CreaseType::Mountain), ((5, 6), CreaseType::Valley), ((0, 9), CreaseType::Mountain)];
    let (all, added) = merge_fold_edges(&base, &extra);
    assert_eq!(
        all,
        vec![
            ((1, 2), CreaseType::Mountain),
            ((3, 4), CreaseType::Valley),
            ((5, 6), CreaseType::Valley),
            ((0, 9), CreaseType::Mountain),
        ]
    );
    assert_eq!(added, 2);
    assert_eq!(merge_fold_edges(&base, &[]), (base.to_vec(), 0));
}
