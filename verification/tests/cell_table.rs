use std::collections::HashSet;

use my_webgpu_app::sim::cell_table::CellTable;

fn set(xs: &[u32]) -> HashSet<u32> {
    xs.iter().copied().collect()
}

#[test]
fn cells_list_the_items_whose_boxes_cover_them() {
    let mut t = CellTable::new();
    t.rebuild(&[
        ((0, 0, 0), (1, 0, 0)),
        ((1, 0, 0), (1, 0, 0)),
        ((1, 1, 1), (0, 0, 0)), // empty box
        ((-1, -1, -1), (0, 0, 0)),
    ]);
    assert_eq!(t.query_box((1, 0, 0), (1, 0, 0)), set(&[0, 1]));
    assert_eq!(t.query_box((0, 0, 0), (0, 0, 0)), set(&[0, 3]));
    assert_eq!(t.query_box((-1, -1, -1), (-1, -1, -1)), set(&[3]));
    assert_eq!(t.query_box((5, 5, 5), (6, 6, 6)), set(&[]));
    assert_eq!(t.query_box((-10, -10, -10), (10, 10, 10)), set(&[0, 1, 3]));
    assert_eq!(t.candidate_pairs(), vec![(0, 1), (0, 3)]);
}

#[test]
fn rebuilding_forgets_the_old_boxes() {
    let mut t = CellTable::new();
    t.rebuild(&[((0, 0, 0), (0, 0, 0)), ((0, 0, 0), (0, 0, 0))]);
    assert_eq!(t.candidate_pairs(), vec![(0, 1)]);
    t.rebuild(&[((3, 3, 3), (3, 3, 3))]);
    assert_eq!(t.query_box((0, 0, 0), (0, 0, 0)), set(&[]));
    assert_eq!(t.query_box((3, 3, 3), (3, 3, 3)), set(&[0]));
    assert!(t.candidate_pairs().is_empty());
}

#[test]
fn extreme_cells_are_kept_apart() {
    let mut t = CellTable::new();
    t.rebuild(&[
        ((i32::MAX, i32::MIN, 0), (i32::MAX, i32::MIN, 0)),
        ((-1, i32::MAX, 0), (-1, i32::MAX, 0)),
    ]);
    assert_eq!(t.query_box((i32::MAX, i32::MIN, 0), (i32::MAX, i32::MIN, 0)), set(&[0]));
    assert_eq!(t.query_box((-1, i32::MAX, 0), (-1, i32::MAX, 0)), set(&[1]));
    assert!(t.candidate_pairs().is_empty());
}

#[test]
fn cell_lists_give_each_nonempty_cell_once() {
    let mut t = CellTable::new();
    t.rebuild(&[
        ((0, 0, 0), (1, 0, 0)),
        ((1, 0, 0), (1, 0, 0)),
        ((1, 1, 1), (0, 0, 0)), // empty box
        ((-1, -1, -1), (0, 0, 0)),
    ]);
    let mut lists = t.cell_lists();
    lists.sort();
    // Cells of the cube [-1, 0]^3 and the cell (1, 0, 0).
    assert_eq!(lists.len(), 9);
    assert_eq!(lists.iter().filter(|l| **l == vec![3]).count(), 7);
    assert_eq!(lists.iter().filter(|l| **l == vec![0, 3]).count(), 1);
    assert_eq!(lists.iter().filter(|l| **l == vec![0, 1]).count(), 1);
}
