//! Surface materials of rendered meshes, and the wireframe of a grid cloth.

use vstd::prelude::*;

verus! {

/// Shading model of a rendered mesh.
#[derive(Debug, Clone, Copy, PartialEq, Eq, Structural)]
pub enum Material {
    Cloth,
    Paper,
    Rigid,
}

impl Material {
    /// The material id the shader's uniform carries: 0, 1, 2 in declaration order.
    pub fn kind(&self) -> (r: u32)
        ensures
            r == match *self {
                Material::Cloth => 0u32,
                Material::Paper => 1u32,
                Material::Rigid => 2u32,
            },
    {
        match self {
            Material::Cloth => 0,
            Material::Paper => 1,
            Material::Rigid => 2,
        }
    }
}

/// The wireframe lines at vertex `(row, col)` of an `n x n` grid, as pairs
/// of vertex indices: to its right neighbour if it has one, then to the
/// vertex below it if it has one.
pub open spec fn wire_at(n: nat, row: nat, col: nat) -> Seq<u32> {
    let v = row * n + col;
    (if col + 1 < n { seq![v as u32, (v + 1) as u32] } else { Seq::empty() })
        + (if row + 1 < n { seq![v as u32, (v + n) as u32] } else { Seq::empty() })
}

/// The wireframe lines of the first `m` vertices of an `n x n` grid, in
/// row-major order.
pub open spec fn wire_prefix(n: nat, m: nat) -> Seq<u32>
    decreases m,
{
    if m == 0 || n == 0 {
        Seq::empty()
    } else {
        wire_prefix(n, (m - 1) as nat) + wire_at(n, ((m - 1) as nat / n) as nat, ((m - 1) as nat % n) as nat)
    }
}

/// The vertex indices of the line list that draws the wireframe of an
/// `n x n` grid cloth: each vertex in row-major order joined to its right
/// neighbour and to the vertex below.
pub fn grid_wireframe_indices(n: usize) -> (r: Vec<u32>)
    requires
        n * n <= 0x1_0000_0000,
    ensures
        r@ == wire_prefix(n as nat, (n * n) as nat),
{
    let mut out: Vec<u32> = Vec::new();
    let mut row: usize = 0;
    while row < n
        invariant
            n * n <= 0x1_0000_0000,
            0 <= row <= n,
            out@ == wire_prefix(n as nat, (row * n) as nat),
        decreases n - row,
    {
        let mut col: usize = 0;
        while col < n
            invariant
                n * n <= 0x1_0000_0000,
                0 <= row < n,
                0 <= col <= n,
                out@ == wire_prefix(n as nat, (row * n + col) as nat),
            decreases n - col,
        {
            proof {
                assert((row + 1) * n <= n * n) by (nonlinear_arith)
                    requires
                        row < n,
                {
                }
                assert((row + 1) * n == row * n + n) by (nonlinear_arith);
                vstd::arithmetic::div_mod::lemma_fundamental_div_mod_converse(
                    (row * n + col) as int, n as int, row as int, col as int);
            }
            let v = (row * n + col) as u32;
            let ghost before = out@;
            if col + 1 < n {
                out.push(v);
                out.push(v + 1);
            }
            if row + 1 < n {
                proof {
                    assert((row + 2) * n <= n * n) by (nonlinear_arith)
                        requires
                            row + 1 < n,
                    {
                    }
                    assert((row + 2) * n == row * n + 2 * n) by (nonlinear_arith);
                }
                out.push(v);
                out.push(v + n as u32);
            }
            proof {
                let m = (row * n + col) as nat;
                assert(wire_prefix(n as nat, m + 1) == wire_prefix(n as nat, m) + wire_at(n as nat, row as nat, col as nat));
                assert(out@ =~= before + wire_at(n as nat, row as nat, col as nat));
            }
            col = col + 1;
        }
        proof {
            assert((row + 1) * n == row * n + n) by (nonlinear_arith);
        }
        row = row + 1;
    }
    out
}

} // verus!
