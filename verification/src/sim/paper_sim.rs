//! Paper folding: fold directions, edge keys, crease-bend triples and the
//! lookup from fold edges to the diamonds that carry their hinges.

use std::collections::HashMap;
use vstd::prelude::*;

use crate::sim::crease::CreaseType;
use crate::sim::shared::{lemma_pack_key_injective, pack, pack_key};

verus! {

broadcast use vstd::std_specs::hash::group_hash_axioms;

/// Direction of a fold: mountain folds away from the camera, valley toward it.
#[derive(Debug, Clone, Copy, PartialEq, Eq, Structural)]
pub enum FoldDirection {
    Mountain,
    Valley,
}

/// An undirected edge key: the two endpoints with the smaller first.
pub open spec fn spec_normalise_edge(a: u32, b: u32) -> (u32, u32) {
    if a < b { (a, b) } else { (b, a) }
}

/// Orders the endpoints of an edge so that the smaller comes first.
pub fn normalise_edge(a: u32, b: u32) -> (r: (u32, u32))
    ensures
        r == spec_normalise_edge(a, b),
        r.0 <= r.1,
        (r.0 == a && r.1 == b) || (r.0 == b && r.1 == a),
{
    if a < b { (a, b) } else { (b, a) }
}

/// The fold a crease of kind `c` drives; boundary lines drive none.
pub fn fold_direction_of(c: CreaseType) -> (r: Option<FoldDirection>)
    ensures
        r == match c {
            CreaseType::Mountain => Some(FoldDirection::Mountain),
            CreaseType::Valley => Some(FoldDirection::Valley),
            CreaseType::Boundary => None::<FoldDirection>,
        },
{
    match c {
        CreaseType::Mountain => Some(FoldDirection::Mountain),
        CreaseType::Valley => Some(FoldDirection::Valley),
        CreaseType::Boundary => None,
    }
}

/// Consecutive `(A, B, C)` windows of every chain, chain by chain.
pub open spec fn chain_triples(chains: Seq<Seq<u32>>) -> Seq<[u32; 3]>
    decreases chains.len(),
{
    if chains.len() == 0 {
        Seq::empty()
    } else {
        let c = chains.last();
        chain_triples(chains.drop_last()) + Seq::new(
            if c.len() >= 3 { (c.len() - 2) as nat } else { 0 },
            |k: int| [c[k], c[k + 1], c[k + 2]],
        )
    }
}

/// Adding a chain of `n` vertices adds `n - 2` triples after those of the
/// chains before it (none if `n < 3`): for every interior vertex `c[k]`,
/// `0 < k < n - 1`, the triple `[c[k - 1], c[k], c[k + 1]]`, in chain order.
pub proof fn lemma_chain_adds_a_triple_per_interior_vertex(cs: Seq<Seq<u32>>, c: Seq<u32>)
    ensures
        ({
            let before = chain_triples(cs);
            let after = chain_triples(cs.push(c));
            &&& after.len() == before.len() + if c.len() >= 3 { c.len() - 2 } else { 0 }
            &&& after.subrange(0, before.len() as int) == before
            &&& forall|k: int| 0 < k < c.len() - 1 ==> #[trigger] after[before.len() + k - 1] == [c[k - 1], c[k], c[k + 1]]
        }),
{
    let ext = cs.push(c);
    assert(ext.drop_last() == cs);
    assert(ext.last() == c);
    let before = chain_triples(cs);
    let after = chain_triples(ext);
    assert(after.subrange(0, before.len() as int) =~= before);
}

/// Crease-bend triples: for each consecutive `(A, B, C)` along a crease
/// chain, `B` is the interior vertex that should stay on line `AC`.
pub fn crease_bend_triples(chains: &Vec<Vec<u32>>) -> (r: Vec<[u32; 3]>)
    ensures
        r@ == chain_triples(chains@.map_values(|c: Vec<u32>| c@)),
{
    let ghost cs = chains@.map_values(|c: Vec<u32>| c@);
    let mut out: Vec<[u32; 3]> = Vec::new();
    let mut i: usize = 0;
    while i < chains.len()
        invariant
            cs == chains@.map_values(|c: Vec<u32>| c@),
            0 <= i <= chains.len(),
            out@ == chain_triples(cs.take(i as int)),
        decreases chains.len() - i,
    {
        let chain = &chains[i];
        let ghost c = cs[i as int];
        assert(chain@ == c);
        let ghost prefix = out@;
        let n = chain.len();
        let windows: usize = if n >= 3 { n - 2 } else { 0 };
        let mut k: usize = 0;
        while k < windows
            invariant
                n == chain.len(),
                chain@ == c,
                windows == (if n >= 3 { n - 2 } else { 0 }),
                0 <= k <= windows,
                out@ == prefix + Seq::new(k as nat, |j: int| [c[j], c[j + 1], c[j + 2]]),
            decreases windows - k,
        {
            out.push([chain[k], chain[k + 1], chain[k + 2]]);
            proof {
                assert(out@ =~= prefix + Seq::new((k + 1) as nat, |j: int| [c[j], c[j + 1], c[j + 2]]));
            }
            k = k + 1;
        }
        proof {
            assert(cs.take(i + 1).drop_last() == cs.take(i as int));
            assert(cs.take(i + 1).last() == c);
        }
        i = i + 1;
    }
    proof {
        assert(cs.take(chains.len() as int) == cs);
    }
    out
}

/// The last diamond among the first `m` whose edge normalises to `key`.
pub open spec fn last_diamond_at(diamonds: Seq<[u32; 4]>, key: (u32, u32), m: int) -> Option<nat>
    decreases m,
{
    if m <= 0 {
        None
    } else if spec_normalise_edge(diamonds[m - 1][0], diamonds[m - 1][1]) == key {
        Some((m - 1) as nat)
    } else {
        last_diamond_at(diamonds, key, m - 1)
    }
}

/// Index from normalised edge keys (packed) to the diamond built on that
/// edge; if two diamonds share an edge the later one wins.
pub fn edge_to_diamond(diamonds: &[[u32; 4]]) -> (r: HashMap<u64, usize>)
    ensures
        forall|k: (u32, u32)| #[trigger] r@.contains_key(pack_key(k)) <==> last_diamond_at(diamonds@, k, diamonds@.len() as int) is Some,
        forall|k: (u32, u32)| r@.contains_key(pack_key(k)) ==> #[trigger] r@[pack_key(k)] == last_diamond_at(diamonds@, k, diamonds@.len() as int)->Some_0,
        forall|x: u64| #[trigger] r@.contains_key(x) ==> exists|k: (u32, u32)| pack_key(k) == x,
{
    let mut map: HashMap<u64, usize> = HashMap::new();
    let mut di: usize = 0;
    while di < diamonds.len()
        invariant
            0 <= di <= diamonds.len(),
            forall|k: (u32, u32)| #[trigger] map@.contains_key(pack_key(k)) <==> last_diamond_at(diamonds@, k, di as int) is Some,
            forall|k: (u32, u32)| map@.contains_key(pack_key(k)) ==> #[trigger] map@[pack_key(k)] == last_diamond_at(diamonds@, k, di as int)->Some_0,
            forall|x: u64| #[trigger] map@.contains_key(x) ==> exists|k: (u32, u32)| pack_key(k) == x,
        decreases diamonds.len() - di,
    {
        let d = diamonds[di];
        let key = normalise_edge(d[0], d[1]);
        let packed = pack(key);
        map.insert(packed, di);
        proof {
            assert forall|k: (u32, u32)| #[trigger] map@.contains_key(pack_key(k)) <==> last_diamond_at(diamonds@, k, di + 1) is Some by {
                lemma_pack_key_injective(k, key);
            }
            assert forall|k: (u32, u32)| map@.contains_key(pack_key(k)) implies #[trigger] map@[pack_key(k)] == last_diamond_at(diamonds@, k, di + 1)->Some_0 by {
                lemma_pack_key_injective(k, key);
            }
        }
        di = di + 1;
    }
    map
}

/// The diamond that carries the hinge of fold edge `(a, b)` (in either order), if any.
pub fn diamond_for_edge(index: &HashMap<u64, usize>, diamonds: &[[u32; 4]], a: u32, b: u32) -> (r: Option<usize>)
    requires
        forall|k: (u32, u32)| #[trigger] index@.contains_key(pack_key(k)) <==> last_diamond_at(diamonds@, k, diamonds@.len() as int) is Some,
        forall|k: (u32, u32)| index@.contains_key(pack_key(k)) ==> #[trigger] index@[pack_key(k)] == last_diamond_at(diamonds@, k, diamonds@.len() as int)->Some_0,
    ensures
        r == (match last_diamond_at(diamonds@, spec_normalise_edge(a, b), diamonds@.len() as int) {
            Some(di) => Some(di as usize),
            None => None::<usize>,
        }),
{
    let key = normalise_edge(a, b);
    match index.get(&pack(key)) {
        Some(di) => Some(*di),
        None => None,
    }
}

/// For the first `m` fold edges in order: the `(fold edge, diamond)` pairs
/// of those that have a diamond.
pub open spec fn hinge_plan(diamonds: Seq<[u32; 4]>, folds: Seq<(u32, u32)>, m: int) -> Seq<(usize, usize)>
    decreases m,
{
    if m <= 0 {
        Seq::empty()
    } else {
        let prev = hinge_plan(diamonds, folds, m - 1);
        match last_diamond_at(diamonds, spec_normalise_edge(folds[m - 1].0, folds[m - 1].1), diamonds.len() as int) {
            Some(di) => prev.push(((m - 1) as usize, di as usize)),
            None => prev,
        }
    }
}

/// How many of the first `m` fold edges have no diamond.
pub open spec fn dropped_folds(diamonds: Seq<[u32; 4]>, folds: Seq<(u32, u32)>, m: int) -> nat
    decreases m,
{
    if m <= 0 {
        0
    } else {
        let prev = dropped_folds(diamonds, folds, m - 1);
        match last_diamond_at(diamonds, spec_normalise_edge(folds[m - 1].0, folds[m - 1].1), diamonds.len() as int) {
            Some(_) => prev,
            None => prev + 1,
        }
    }
}

proof fn lemma_plan_len(diamonds: Seq<[u32; 4]>, folds: Seq<(u32, u32)>, m: int)
    requires
        0 <= m,
    ensures
        hinge_plan(diamonds, folds, m).len() + dropped_folds(diamonds, folds, m) == m,
    decreases m,
{
    if m > 0 {
        lemma_plan_len(diamonds, folds, m - 1);
    }
}

proof fn lemma_last_diamond_matches(diamonds: Seq<[u32; 4]>, key: (u32, u32), m: int)
    requires
        last_diamond_at(diamonds, key, m) is Some,
    ensures
        ({
            let di = last_diamond_at(diamonds, key, m)->Some_0 as int;
            &&& 0 <= di < m
            &&& spec_normalise_edge(diamonds[di][0], diamonds[di][1]) == key
        }),
    decreases m,
{
    if m > 0 && spec_normalise_edge(diamonds[m - 1][0], diamonds[m - 1][1]) != key {
        lemma_last_diamond_matches(diamonds, key, m - 1);
    }
}

/// Every planned hinge sits on its fold edge: the diamond paired with fold
/// edge `f` is built on that edge (in either order), and the fold edges
/// come in the order given.
pub proof fn lemma_hinges_sit_on_their_folds(diamonds: Seq<[u32; 4]>, folds: Seq<(u32, u32)>, m: int)
    requires
        0 <= m <= folds.len(),
        folds.len() <= usize::MAX,
        diamonds.len() <= usize::MAX,
    ensures
        forall|t: int| 0 <= t < hinge_plan(diamonds, folds, m).len() ==> {
            let (f, d) = #[trigger] hinge_plan(diamonds, folds, m)[t];
            &&& f < m
            &&& d < diamonds.len()
            &&& spec_normalise_edge(diamonds[d as int][0], diamonds[d as int][1])
                == spec_normalise_edge(folds[f as int].0, folds[f as int].1)
        },
        forall|s: int, t: int| 0 <= s < t < hinge_plan(diamonds, folds, m).len()
            ==> (#[trigger] hinge_plan(diamonds, folds, m)[s]).0 < (#[trigger] hinge_plan(diamonds, folds, m)[t]).0,
    decreases m,
{
    if m > 0 {
        lemma_hinges_sit_on_their_folds(diamonds, folds, m - 1);
        let prev = hinge_plan(diamonds, folds, m - 1);
        let cur = hinge_plan(diamonds, folds, m);
        let key = spec_normalise_edge(folds[m - 1].0, folds[m - 1].1);
        if last_diamond_at(diamonds, key, diamonds.len() as int) is Some {
            let di = last_diamond_at(diamonds, key, diamonds.len() as int)->Some_0;
            lemma_last_diamond_matches(diamonds, key, diamonds.len() as int);
            assert(cur == prev.push(((m - 1) as usize, di as usize)));
            assert forall|t: int| 0 <= t < cur.len() implies {
                let (f, d) = #[trigger] cur[t];
                &&& f < m
                &&& d < diamonds.len()
                &&& spec_normalise_edge(diamonds[d as int][0], diamonds[d as int][1])
                    == spec_normalise_edge(folds[f as int].0, folds[f as int].1)
            } by {
                if t < prev.len() {
                    assert(cur[t] == prev[t]);
                }
            }
            assert forall|s: int, t: int| 0 <= s < t < cur.len() implies (#[trigger] cur[s]).0 < (#[trigger] cur[t]).0 by {
                assert(cur[s] == prev[s]);
                if t < prev.len() {
                    assert(cur[t] == prev[t]);
                }
            }
        } else {
            assert(cur == prev);
        }
    }
}

/// Pairs each fold edge, in the order given, with the diamond that carries
/// its hinge, and counts the fold edges that have none (boundary edges or a
/// triangulation that does not contain them).
pub fn plan_hinges(diamonds: &[[u32; 4]], folds: &[(u32, u32)]) -> (r: (Vec<(usize, usize)>, usize))
    ensures
        r.0@ == hinge_plan(diamonds@, folds@, folds@.len() as int),
        r.1 == dropped_folds(diamonds@, folds@, folds@.len() as int),
        r.0@.len() + r.1 == folds@.len(),
{
    let index = edge_to_diamond(diamonds);
    let mut plan: Vec<(usize, usize)> = Vec::new();
    let mut dropped: usize = 0;
    let mut i: usize = 0;
    while i < folds.len()
        invariant
            0 <= i <= folds.len(),
            forall|k: (u32, u32)| #[trigger] index@.contains_key(pack_key(k)) <==> last_diamond_at(diamonds@, k, diamonds@.len() as int) is Some,
            forall|k: (u32, u32)| index@.contains_key(pack_key(k)) ==> #[trigger] index@[pack_key(k)] == last_diamond_at(diamonds@, k, diamonds@.len() as int)->Some_0,
            plan@ == hinge_plan(diamonds@, folds@, i as int),
            dropped == dropped_folds(diamonds@, folds@, i as int),
            plan@.len() + dropped == i,
        decreases folds.len() - i,
    {
        proof {
            lemma_plan_len(diamonds@, folds@, i as int);
        }
        let (a, b) = folds[i];
        match diamond_for_edge(&index, diamonds, a, b) {
            Some(di) => {
                plan.push((i, di));
            },
            None => {
                dropped = dropped + 1;
            },
        }
        i = i + 1;
    }
    (plan, dropped)
}

} // verus!
