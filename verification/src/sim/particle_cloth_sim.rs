//! The bending stencils of the particle cloth: the diamonds it keeps once
//! the edges whose bending a hinge constraint takes over are left out.

use std::collections::HashSet;
use vstd::prelude::*;

use crate::sim::paper_sim::{normalise_edge, spec_normalise_edge};
use crate::sim::shared::{pack, pack_key};

verus! {

broadcast use vstd::std_specs::hash::group_hash_axioms;

/// Diamond `d` bends across an edge of `skip`: the key of its shared edge
/// `(d[0], d[1])`, smaller endpoint first and packed by `pack_key`, is in `skip`.
pub open spec fn bends_across(skip: Set<u64>, d: [u32; 4]) -> bool {
    skip.contains(pack_key(spec_normalise_edge(d[0], d[1])))
}

/// The diamonds whose shared edge is not in `skip`, in their order.
pub fn bendable_diamonds(diamonds: &[[u32; 4]], skip: &HashSet<u64>) -> (r: Vec<[u32; 4]>)
    ensures
        r@ == diamonds@.filter(|d: [u32; 4]| !bends_across(skip@, d)),
{
    let ghost f = |d: [u32; 4]| !bends_across(skip@, d);
    let mut out: Vec<[u32; 4]> = Vec::new();
    let mut i: usize = 0;
    while i < diamonds.len()
        invariant
            0 <= i <= diamonds.len(),
            f == (|d: [u32; 4]| !bends_across(skip@, d)),
            out@ == diamonds@.take(i as int).filter(f),
        decreases diamonds.len() - i,
    {
        let d = diamonds[i];
        let key = pack(normalise_edge(d[0], d[1]));
        proof {
            assert(diamonds@.take(i + 1).drop_last() == diamonds@.take(i as int));
            reveal(Seq::filter);
        }
        if !skip.contains(&key) {
            out.push(d);
        }
        i = i + 1;
    }
    assert(diamonds@.take(diamonds@.len() as int) == diamonds@);
    out
}

} // verus!
