//! Hop distances over the vertex-neighbour graph, used to pick the vertices
//! that follow a dragged vertex and how far from it they are.

use std::collections::HashSet;
use vstd::std_specs::iter::IteratorSpec;
use vstd::prelude::*;

verus! {

broadcast use vstd::std_specs::hash::group_hash_axioms;

/// Views of the neighbour sets.
pub open spec fn neighbor_lists(nbrs: Seq<HashSet<u32>>) -> Seq<Set<u32>> {
    nbrs.map_values(|v: HashSet<u32>| v@)
}

/// `v` is listed among the neighbours of `u`.
pub open spec fn adjacent(g: Seq<Set<u32>>, u: int, v: int) -> bool {
    0 <= u < g.len() && 0 <= v <= u32::MAX && g[u].contains(v as u32)
}

/// `v` is reached from `c` along at most `k` neighbour links.
pub open spec fn within_hops(g: Seq<Set<u32>>, c: int, v: int, k: nat) -> bool
    decreases k,
{
    if k == 0 {
        v == c
    } else {
        within_hops(g, c, v, (k - 1) as nat)
            || exists|u: int| within_hops(g, c, u, (k - 1) as nat) && #[trigger] adjacent(g, u, v)
    }
}

/// The fewest links from `c` to `v` is exactly `d`.
pub open spec fn hop_distance(g: Seq<Set<u32>>, c: int, v: int, d: nat) -> bool {
    within_hops(g, c, v, d) && (d == 0 || !within_hops(g, c, v, (d - 1) as nat))
}

/// Every listed neighbour is a vertex of the graph.
pub open spec fn links_in_range(g: Seq<Set<u32>>) -> bool {
    forall|u: int, x: u32| 0 <= u < g.len() && #[trigger] g[u].contains(x) ==> x < g.len()
}

proof fn lemma_within_grows(g: Seq<Set<u32>>, c: int, v: int, k: nat, m: nat)
    requires
        within_hops(g, c, v, k),
        k <= m,
    ensures
        within_hops(g, c, v, m),
    decreases m - k,
{
    if k < m {
        assert(within_hops(g, c, v, (k + 1) as nat));
        lemma_within_grows(g, c, v, (k + 1) as nat, m);
    }
}

proof fn lemma_within_in_range(g: Seq<Set<u32>>, c: int, v: int, k: nat)
    requires
        links_in_range(g),
        0 <= c < g.len(),
        within_hops(g, c, v, k),
    ensures
        0 <= v < g.len(),
    decreases k,
{
    if k > 0 {
        if within_hops(g, c, v, (k - 1) as nat) {
            lemma_within_in_range(g, c, v, (k - 1) as nat);
        } else {
            let u = choose|u: int| within_hops(g, c, u, (k - 1) as nat) && #[trigger] adjacent(g, u, v);
            assert(g[u].contains(v as u32));
        }
    }
}

proof fn lemma_in_range_of_set(g: Seq<Set<u32>>, u: int, x: u32)
    requires
        links_in_range(g),
        0 <= u < g.len(),
        g[u].contains(x),
    ensures
        x < g.len(),
{
}

/// A vertex has one hop distance.
proof fn lemma_hop_distance_unique(g: Seq<Set<u32>>, c: int, v: int, d1: nat, d2: nat)
    requires
        hop_distance(g, c, v, d1),
        hop_distance(g, c, v, d2),
    ensures
        d1 == d2,
{
    if d1 < d2 {
        lemma_within_grows(g, c, v, d1, (d2 - 1) as nat);
    } else if d2 < d1 {
        lemma_within_grows(g, c, v, d2, (d1 - 1) as nat);
    }
}

/// Once no vertex lies exactly `k` links away, nothing lies farther.
proof fn lemma_stalled(g: Seq<Set<u32>>, c: int, k: nat, v: int, m: nat)
    requires
        k > 0,
        forall|x: int| !hop_distance(g, c, x, k),
        within_hops(g, c, v, m),
    ensures
        within_hops(g, c, v, k),
    decreases m,
{
    if m > k {
        if within_hops(g, c, v, (m - 1) as nat) {
            lemma_stalled(g, c, k, v, (m - 1) as nat);
        } else {
            let u = choose|u: int| within_hops(g, c, u, (m - 1) as nat) && #[trigger] adjacent(g, u, v);
            lemma_stalled(g, c, k, u, (m - 1) as nat);
            assert(!hop_distance(g, c, u, k));
            assert(within_hops(g, c, u, (k - 1) as nat));
            assert(within_hops(g, c, v, k));
        }
    } else if m < k {
        lemma_within_grows(g, c, v, m, k);
    }
}

/// Marks the vertices one link beyond the frontier at distance `k` and
/// returns them, in the order they are first met (frontier order, then
/// neighbour-list order).
fn expand_level(
    neighbors: &[HashSet<u32>],
    seen: &mut Vec<bool>,
    frontier: &Vec<usize>,
    Ghost(c): Ghost<int>,
    Ghost(k): Ghost<nat>,
) -> (next: Vec<usize>)
    requires
        links_in_range(neighbor_lists(neighbors@)),
        0 <= c < neighbors.len(),
        old(seen).len() == neighbors.len(),
        forall|x: int| 0 <= x < neighbors.len() ==> (old(seen)[x] <==> within_hops(neighbor_lists(neighbors@), c, x, k)),
        forall|t: int| 0 <= t < frontier.len() ==> #[trigger] frontier[t] < neighbors.len()
            && hop_distance(neighbor_lists(neighbors@), c, frontier[t] as int, k),
        forall|x: int| #[trigger] hop_distance(neighbor_lists(neighbors@), c, x, k) ==> frontier@.contains(x as usize),
    ensures
        final(seen).len() == neighbors.len(),
        forall|x: int| 0 <= x < neighbors.len() ==> (final(seen)[x] <==> within_hops(neighbor_lists(neighbors@), c, x, k + 1)),
        forall|t: int| 0 <= t < next.len() ==> hop_distance(neighbor_lists(neighbors@), c, #[trigger] next[t] as int, k + 1),
        forall|s: int, t: int| 0 <= s < t < next.len() ==> next[s] != next[t],
        forall|x: int| #[trigger] hop_distance(neighbor_lists(neighbors@), c, x, k + 1) ==> next@.contains(x as usize),
{
    let ghost g = neighbor_lists(neighbors@);
    let n = neighbors.len();
    let mut next: Vec<usize> = Vec::new();
    let mut i: usize = 0;
    while i < frontier.len()
        invariant
            g == neighbor_lists(neighbors@),
            n == neighbors.len(),
            links_in_range(g),
            0 <= c < n,
            seen.len() == n,
            0 <= i <= frontier.len(),
            forall|t: int| 0 <= t < frontier.len() ==> #[trigger] frontier[t] < n && hop_distance(g, c, frontier[t] as int, k),
            forall|x: int| 0 <= x < n ==> (seen[x] <==> (within_hops(g, c, x, k) || next@.contains(x as usize))),
            forall|t: int| 0 <= t < next.len() ==> #[trigger] next[t] < n && hop_distance(g, c, next[t] as int, k + 1),
            forall|s: int, t: int| 0 <= s < t < next.len() ==> next[s] != next[t],
            forall|t: int, x: u32| 0 <= t < i && #[trigger] g[frontier[t] as int].contains(x) ==> seen[x as int],
        decreases frontier.len() - i,
    {
        let v = frontier[i];
        let set = &neighbors[v];
        let ghost keys = set.iter().remaining().unref();
        assert(set@ == g[v as int]);
        for nbr in it: set.iter()
            invariant
                g == neighbor_lists(neighbors@),
                n == neighbors.len(),
                links_in_range(g),
                0 <= c < n,
                seen.len() == n,
                0 <= i < frontier.len(),
                v == frontier[i as int],
                v < n,
                keys == it.seq().map_values(|r: &u32| *r),
                keys.to_set() == g[v as int],
                hop_distance(g, c, v as int, k),
                forall|x: int| 0 <= x < n ==> (seen[x] <==> (within_hops(g, c, x, k) || next@.contains(x as usize))),
                forall|t: int| 0 <= t < next.len() ==> #[trigger] next[t] < n && hop_distance(g, c, next[t] as int, k + 1),
                forall|s: int, t: int| 0 <= s < t < next.len() ==> next[s] != next[t],
                forall|t: int, x: u32| 0 <= t < i && #[trigger] g[frontier[t] as int].contains(x) ==> seen[x as int],
                forall|t: int| 0 <= t < frontier.len() ==> #[trigger] frontier[t] < n,
                forall|j2: int| 0 <= j2 < it.index() ==> seen[#[trigger] keys[j2] as int],
        {
            let ghost j = it.index() as int;
            assert(keys[j] == *nbr);
            assert(keys.to_set().contains(keys[j]));
            assert(g[v as int].contains(*nbr));
            let nb = *nbr as usize;
            if !seen[nb] {
                proof {
                    assert(adjacent(g, v as int, nb as int));
                    assert(within_hops(g, c, nb as int, k + 1));
                    assert(!within_hops(g, c, nb as int, k));
                    assert(!next@.contains(nb));
                }
                let ghost old_next = next@;
                let ghost old_seen = seen@;
                seen.set(nb, true);
                next.push(nb);
                proof {
                    assert forall|x: int| 0 <= x < n implies (seen[x] <==> (within_hops(g, c, x, k) || next@.contains(x as usize))) by {
                        if x == nb as int {
                            assert(next@[next@.len() - 1] == nb);
                        } else {
                            assert(seen[x] == old_seen[x]);
                            if old_next.contains(x as usize) {
                                let t = choose|t: int| 0 <= t < old_next.len() && old_next[t] == x as usize;
                                assert(next@[t] == x as usize);
                            }
                            if next@.contains(x as usize) {
                                let t = choose|t: int| 0 <= t < next@.len() && next@[t] == x as usize;
                                assert(t < old_next.len());
                                assert(old_next[t] == x as usize);
                            }
                        }
                    }
                    assert forall|s: int, t: int| 0 <= s < t < next.len() implies next[s] != next[t] by {
                        if t == next.len() - 1 {
                            if next[s] == nb {
                                assert(old_next[s] == nb);
                                assert(old_next.contains(nb));
                            }
                        }
                    }
                    assert forall|t: int, x: u32| 0 <= t < i && #[trigger] g[frontier[t] as int].contains(x) implies seen[x as int] by {
                        lemma_in_range_of_set(g, frontier[t] as int, x);
                        assert(old_seen[x as int]);
                    }
                    assert forall|j2: int| 0 <= j2 < j implies seen[#[trigger] keys[j2] as int] by {
                        assert(keys.to_set().contains(keys[j2]));
                        lemma_in_range_of_set(g, v as int, keys[j2]);
                        assert(old_seen[keys[j2] as int]);
                    }
                }
            }
        }
        proof {
            assert forall|t: int, x: u32| 0 <= t < i + 1 && #[trigger] g[frontier[t] as int].contains(x) implies seen[x as int] by {
                if t == i as int {
                    assert(keys.to_set().contains(x));
                    let j2 = choose|j2: int| 0 <= j2 < keys.len() && keys[j2] == x;
                    assert(seen[keys[j2] as int]);
                }
            }
        }
        i = i + 1;
    }
    proof {
        assert forall|x: int| 0 <= x < n implies (seen[x] <==> within_hops(g, c, x, k + 1)) by {
            if next@.contains(x as usize) {
                let t = choose|t: int| 0 <= t < next@.len() && next@[t] == x as usize;
                assert(hop_distance(g, c, next[t] as int, k + 1));
            }
            if within_hops(g, c, x, k + 1) && !within_hops(g, c, x, k) {
                let u = choose|u: int| within_hops(g, c, u, k) && #[trigger] adjacent(g, u, x);
                if k > 0 {
                    if within_hops(g, c, u, (k - 1) as nat) {
                        assert(within_hops(g, c, x, k));
                    }
                }
                assert(hop_distance(g, c, u, k));
                assert(frontier@.contains(u as usize));
                let t = choose|t: int| 0 <= t < frontier@.len() && frontier@[t] == u as usize;
                assert(g[frontier[t] as int].contains(x as u32));
                assert(seen[x]);
            }
        }
        assert forall|x: int| #[trigger] hop_distance(g, c, x, k + 1) implies next@.contains(x as usize) by {
            lemma_within_in_range(g, c, x, k + 1);
            assert(seen[x]);
        }
    }
    next
}

/// Appends each frontier vertex with hop count `k`.
fn append_level(out: &mut Vec<(usize, usize)>, frontier: &Vec<usize>, k: usize)
    ensures
        final(out)@ == old(out)@ + frontier@.map_values(|x: usize| (x, k)),
{
    let ghost start = old(out)@;
    let mut i: usize = 0;
    while i < frontier.len()
        invariant
            0 <= i <= frontier.len(),
            out@ == start + frontier@.subrange(0, i as int).map_values(|x: usize| (x, k)),
        decreases frontier.len() - i,
    {
        out.push((frontier[i], k));
        i = i + 1;
        assert(frontier@.subrange(0, i as int) == frontier@.subrange(0, i - 1 as int).push(frontier@[i - 1]));
    }
    assert(frontier@.subrange(0, frontier@.len() as int) == frontier@);
}

/// The vertices within `max_hops` links of `center`, breadth first, each
/// with its hop distance: every such vertex once, hop counts never
/// decreasing along the list, and nothing farther.
pub fn drag_hop_distances(neighbors: &[HashSet<u32>], center: usize, max_hops: usize) -> (r: Vec<(usize, usize)>)
    requires
        center < neighbors.len(),
        links_in_range(neighbor_lists(neighbors@)),
    ensures
        forall|t: int| 0 <= t < r.len() ==> hop_distance(neighbor_lists(neighbors@), center as int, #[trigger] r[t].0 as int, r[t].1 as nat),
        forall|t: int| 0 <= t < r.len() ==> #[trigger] r[t].1 <= max_hops,
        forall|s: int, t: int| 0 <= s < t < r.len() ==> r[s].0 != r[t].0 && r[s].1 <= r[t].1,
        forall|v: int| #[trigger] within_hops(neighbor_lists(neighbors@), center as int, v, max_hops as nat) ==>
            exists|t: int| 0 <= t < r.len() && r[t].0 == v,
{
    let ghost g = neighbor_lists(neighbors@);
    let ghost c = center as int;
    let n = neighbors.len();
    let mut seen: Vec<bool> = Vec::new();
    let mut i: usize = 0;
    while i < n
        invariant
            0 <= i <= n,
            seen.len() == i,
            forall|x: int| 0 <= x < i ==> !seen[x],
        decreases n - i,
    {
        seen.push(false);
        i = i + 1;
    }
    seen.set(center, true);
    let mut frontier: Vec<usize> = Vec::new();
    frontier.push(center);
    proof {
        assert forall|x: int| 0 <= x < n implies (seen[x] <==> within_hops(g, c, x, 0)) by {}
        assert forall|x: int| #[trigger] hop_distance(g, c, x, 0) implies frontier@.contains(x as usize) by {
            assert(frontier@[0] == center);
        }
    }
    let mut out: Vec<(usize, usize)> = Vec::new();
    let mut k: usize = 0;
    loop
        invariant_except_break
            g == neighbor_lists(neighbors@),
            c == center as int,
            n == neighbors.len(),
            links_in_range(g),
            0 <= c < n,
            k <= max_hops,
            seen.len() == n,
            forall|x: int| 0 <= x < n ==> (seen[x] <==> within_hops(g, c, x, k as nat)),
            forall|t: int| 0 <= t < frontier.len() ==> #[trigger] frontier[t] < n && hop_distance(g, c, frontier[t] as int, k as nat),
            forall|s: int, t: int| 0 <= s < t < frontier.len() ==> frontier[s] != frontier[t],
            forall|x: int| #[trigger] hop_distance(g, c, x, k as nat) ==> frontier@.contains(x as usize),
            forall|t: int| #![trigger out[t]] 0 <= t < out.len() ==> hop_distance(g, c, out[t].0 as int, out[t].1 as nat) && out[t].1 < k,
            forall|s: int, t: int| 0 <= s < t < out.len() ==> out[s].0 != out[t].0 && out[s].1 <= out[t].1,
            forall|x: int| k > 0 && #[trigger] within_hops(g, c, x, (k - 1) as nat) ==> exists|t: int| 0 <= t < out.len() && out[t].0 == x,
        ensures
            forall|t: int| 0 <= t < out.len() ==> hop_distance(g, c, #[trigger] out[t].0 as int, out[t].1 as nat),
            forall|t: int| 0 <= t < out.len() ==> #[trigger] out[t].1 <= max_hops,
            forall|s: int, t: int| 0 <= s < t < out.len() ==> out[s].0 != out[t].0 && out[s].1 <= out[t].1,
            forall|v: int| #[trigger] within_hops(g, c, v, max_hops as nat) ==> exists|t: int| 0 <= t < out.len() && out[t].0 == v,
        decreases max_hops - k,
    {
        let ghost before = out@;
        append_level(&mut out, &frontier, k);
        proof {
            assert forall|t: int| #![trigger out[t]] 0 <= t < out.len() implies hop_distance(g, c, out[t].0 as int, out[t].1 as nat) && out[t].1 <= k by {
                if t >= before.len() {
                    assert(out[t] == (frontier[t - before.len()], k));
                }
            }
            assert forall|s: int, t: int| 0 <= s < t < out.len() implies out[s].0 != out[t].0 && out[s].1 <= out[t].1 by {
                if t >= before.len() {
                    assert(out[t] == (frontier[t - before.len()], k));
                    if s >= before.len() {
                        assert(out[s] == (frontier[s - before.len()], k));
                    } else {
                        assert(out[s] == before[s]);
                        if out[s].0 == out[t].0 {
                            lemma_hop_distance_unique(g, c, out[s].0 as int, out[s].1 as nat, k as nat);
                        }
                    }
                } else {
                    assert(out[s] == before[s]);
                    assert(out[t] == before[t]);
                }
            }
            assert forall|x: int| #[trigger] within_hops(g, c, x, k as nat) implies exists|t: int| 0 <= t < out.len() && out[t].0 == x by {
                if k > 0 && within_hops(g, c, x, (k - 1) as nat) {
                    let t = choose|t: int| 0 <= t < before.len() && before[t].0 == x;
                    assert(out[t] == before[t]);
                } else {
                    assert(hop_distance(g, c, x, k as nat));
                    assert(frontier@.contains(x as usize));
                    let t = choose|t: int| 0 <= t < frontier@.len() && frontier@[t] == x as usize;
                    assert(out[before.len() + t] == (frontier[t], k));
                }
            }
        }
        if k == max_hops || frontier.len() == 0 {
            proof {
                assert forall|t: int| 0 <= t < out.len() implies #[trigger] out[t].1 <= max_hops by {
                    assert(out[t].1 <= k);
                }
                assert forall|t: int| 0 <= t < out.len() implies hop_distance(g, c, #[trigger] out[t].0 as int, out[t].1 as nat) by {
                    assert(out[t].1 <= k);
                }
                if k < max_hops {
                    assert forall|v: int| #[trigger] within_hops(g, c, v, max_hops as nat) implies exists|t: int| 0 <= t < out.len() && out[t].0 == v by {
                        if k == 0 {
                            assert(hop_distance(g, c, c, 0));
                            assert(frontier@.contains(center));
                        }
                        assert forall|x: int| !hop_distance(g, c, x, k as nat) by {
                            if hop_distance(g, c, x, k as nat) {
                                assert(frontier@.contains(x as usize));
                            }
                        }
                        lemma_stalled(g, c, k as nat, v, max_hops as nat);
                    }
                }
            }
            break;
        }
        let next = expand_level(neighbors, &mut seen, &frontier, Ghost(c), Ghost(k as nat));
        proof {
            assert forall|t: int| 0 <= t < next.len() implies #[trigger] next[t] < n by {
                lemma_within_in_range(g, c, next[t] as int, (k + 1) as nat);
            }
        }
        frontier = next;
        k = k + 1;
        proof {
            assert forall|x: int| #[trigger] hop_distance(g, c, x, k as nat) implies frontier@.contains(x as usize) by {
                assert(hop_distance(g, c, x, (k - 1) as nat + 1));
            }
            assert forall|x: int| 0 <= x < n implies (seen[x] <==> within_hops(g, c, x, k as nat)) by {
                assert(within_hops(g, c, x, k as nat) == within_hops(g, c, x, (k - 1) as nat + 1));
            }
            assert forall|t: int| 0 <= t < frontier.len() implies #[trigger] frontier[t] < n && hop_distance(g, c, frontier[t] as int, k as nat) by {
                assert(hop_distance(g, c, frontier[t] as int, (k - 1) as nat + 1));
            }
        }
    }
    out
}

} // verus!
