//! Grid meshes for headless runs.

use vstd::prelude::*;

verus! {

/// Index in the face list of the first of the two triangles of grid cell
/// `(row, col)` in an `n x n` vertex grid.
pub open spec fn grid_slot(n: nat, row: nat, col: nat) -> int {
    2 * (row * (n - 1) + col)
}

/// The two triangles of grid cell `(row, col)`: with `tl` the vertex at
/// `(row, col)`, `tr = tl + 1`, `bl` one row down and `br = bl + 1`, the
/// first is `[tl, tr, br]` and the second `[tl, br, bl]`.
pub open spec fn grid_triangle(n: nat, row: nat, col: nat, second: bool) -> [u32; 3] {
    let tl = (row * n + col) as u32;
    let tr = (tl + 1) as u32;
    let bl = ((row + 1) * n + col) as u32;
    let br = (bl + 1) as u32;
    if second { [tl, br, bl] } else { [tl, tr, br] }
}

proof fn lemma_grid_bounds(n: nat, row: nat, col: nat)
    requires
        row + 1 < n,
        col + 1 < n,
    ensures
        (row + 1) * n + col + 1 < n * n,
        row * n + col + 1 < n * n,
        (row + 1) * n == row * n + n,
{
    assert((row + 1) * n + col + 1 < n * n) by (nonlinear_arith)
        requires
            row + 1 < n,
            col + 1 < n,
    {
        assert((row + 1) * n <= (n - 1) * n);
    }
    assert((row + 1) * n == row * n + n) by (nonlinear_arith);
}

/// Two triangles per cell of an `n x n` vertex grid, row by row.
pub fn create_grid_faces(n: usize) -> (r: Vec<[u32; 3]>)
    requires
        n >= 1,
        n * n <= 0x1_0000_0000,
    ensures
        r.len() == 2 * (n - 1) * (n - 1),
        forall|row: nat, col: nat| row + 1 < n && col + 1 < n ==>
            #[trigger] r@[grid_slot(n as nat, row, col)] == grid_triangle(n as nat, row, col, false)
                && r@[grid_slot(n as nat, row, col) + 1] == grid_triangle(n as nat, row, col, true),
{
    let mut faces: Vec<[u32; 3]> = Vec::new();
    let m = n - 1;
    let mut row: usize = 0;
    while row < m
        invariant
            m == n - 1,
            n >= 1,
            n * n <= 0x1_0000_0000,
            0 <= row <= m,
            faces.len() == 2 * (row * m),
            forall|r2: nat, c2: nat| r2 < row && c2 < m ==>
                #[trigger] faces@[grid_slot(n as nat, r2, c2)] == grid_triangle(n as nat, r2, c2, false)
                    && faces@[grid_slot(n as nat, r2, c2) + 1] == grid_triangle(n as nat, r2, c2, true),
        decreases m - row,
    {
        let mut col: usize = 0;
        while col < m
            invariant
                m == n - 1,
                n >= 1,
                n * n <= 0x1_0000_0000,
                0 <= row < m,
                0 <= col <= m,
                faces.len() == 2 * (row * m + col),
                forall|r2: nat, c2: nat| (r2 < row && c2 < m) || (r2 == row && c2 < col) ==>
                    #[trigger] faces@[grid_slot(n as nat, r2, c2)] == grid_triangle(n as nat, r2, c2, false)
                        && faces@[grid_slot(n as nat, r2, c2) + 1] == grid_triangle(n as nat, r2, c2, true),
            decreases m - col,
        {
            proof {
                lemma_grid_bounds(n as nat, row as nat, col as nat);
            }
            let tl = (row * n + col) as u32;
            let tr = tl + 1;
            let bl = ((row + 1) * n + col) as u32;
            let br = bl + 1;
            let ghost before = faces@;
            faces.push([tl, tr, br]);
            faces.push([tl, br, bl]);
            proof {
                let g = grid_slot(n as nat, row as nat, col as nat);
                assert(g == 2 * (row * m + col));
                assert(faces@[g] =~= grid_triangle(n as nat, row as nat, col as nat, false));
                assert(faces@[g + 1] =~= grid_triangle(n as nat, row as nat, col as nat, true));
                assert forall|r2: nat, c2: nat| (r2 < row && c2 < m) || (r2 == row && c2 < col + 1) implies
                    #[trigger] faces@[grid_slot(n as nat, r2, c2)] == grid_triangle(n as nat, r2, c2, false)
                        && faces@[grid_slot(n as nat, r2, c2) + 1] == grid_triangle(n as nat, r2, c2, true) by {
                    if !(r2 == row && c2 == col) {
                        assert(grid_slot(n as nat, r2, c2) + 1 < g) by (nonlinear_arith)
                            requires
                                (r2 < row && c2 < m) || (r2 == row && c2 < col),
                                g == 2 * (row * m + col),
                                grid_slot(n as nat, r2, c2) == 2 * (r2 * m + c2),
                        {
                            if r2 < row {
                                assert(r2 * m + c2 < (r2 + 1) * m);
                                assert((r2 + 1) * m <= row * m);
                            }
                        }
                        assert(faces@[grid_slot(n as nat, r2, c2)] == before[grid_slot(n as nat, r2, c2)]);
                        assert(faces@[grid_slot(n as nat, r2, c2) + 1] == before[grid_slot(n as nat, r2, c2) + 1]);
                    }
                }
            }
            col = col + 1;
        }
        proof {
            assert(2 * (row * m + m) == 2 * ((row + 1) * m)) by (nonlinear_arith);
        }
        row = row + 1;
    }
    proof {
        assert(2 * (m * m) == 2 * (n - 1) * (n - 1)) by (nonlinear_arith)
            requires
                m == n - 1,
        {
        }
    }
    faces
}

} // verus!
