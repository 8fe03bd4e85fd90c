//! Grid set-ups of the interactive harness.

use vstd::prelude::*;

verus! {

/// The fold edge of row `row` in the middle column of an `n` by `n` vertex
/// grid (row-major vertex indices), smaller index first.
pub open spec fn central_fold_edge(n: int, row: int) -> (u32, u32) {
    let a = (row * n + n / 2) as u32;
    let b = ((row + 1) * n + n / 2) as u32;
    if a < b { (a, b) } else { (b, a) }
}

/// The vertical edges down the middle column of an `n` by `n` grid, top to
/// bottom: the hinges of the default central paper fold.
pub fn central_fold_edges(n: usize) -> (r: Vec<(u32, u32)>)
    requires
        n >= 1,
        n * n <= usize::MAX,
    ensures
        r.len() == n - 1,
        forall|row: int| 0 <= row < n - 1 ==> #[trigger] r[row] == central_fold_edge(n as int, row),
{
    let col = n / 2;
    let mut edges: Vec<(u32, u32)> = Vec::new();
    let mut row: usize = 0;
    while row < n - 1
        invariant
            n >= 1,
            n * n <= usize::MAX,
            col == n / 2,
            0 <= row <= n - 1,
            edges.len() == row,
            forall|r2: int| 0 <= r2 < row ==> #[trigger] edges[r2] == central_fold_edge(n as int, r2),
        decreases n - 1 - row,
    {
        assert((row + 1) * n + col < n * n) by (nonlinear_arith)
            requires
                row + 1 <= n - 1,
                col < n,
        {
            assert((row + 1) * n <= (n - 1) * n);
        }
        assert(row * n <= (row + 1) * n) by (nonlinear_arith);
        let a = (row * n + col) as u32;
        let b = ((row + 1) * n + col) as u32;
        let e = if a < b { (a, b) } else { (b, a) };
        edges.push(e);
        row = row + 1;
    }
    edges
}

} // verus!
