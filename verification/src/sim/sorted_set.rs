//! Sorting with duplicates removed: a merge sort whose merge takes the union.

use vstd::prelude::*;

verus! {

/// Strictly increasing.
pub open spec fn strictly_sorted(s: Seq<u64>) -> bool {
    forall|a: int, b: int| 0 <= a < b < s.len() ==> #[trigger] s[a] < #[trigger] s[b]
}

/// Union of two strictly increasing lists, strictly increasing.
fn merge_union(a: &Vec<u64>, b: &Vec<u64>) -> (r: Vec<u64>)
    requires
        strictly_sorted(a@),
        strictly_sorted(b@),
    ensures
        strictly_sorted(r@),
        r@.to_set() == a@.to_set() + b@.to_set(),
{
    let mut out: Vec<u64> = Vec::new();
    let mut i: usize = 0;
    let mut j: usize = 0;
    while i < a.len() || j < b.len()
        invariant
            strictly_sorted(a@),
            strictly_sorted(b@),
            0 <= i <= a.len(),
            0 <= j <= b.len(),
            strictly_sorted(out@),
            out@.to_set() == a@.take(i as int).to_set() + b@.take(j as int).to_set(),
            out.len() > 0 && i < a.len() ==> out@.last() < a@[i as int],
            out.len() > 0 && j < b.len() ==> out@.last() < b@[j as int],
        decreases a.len() + b.len() - i - j,
    {
        let ghost old_out = out@;
        let ghost ta = a@.take(i as int);
        let ghost tb = b@.take(j as int);
        let x: u64;
        if j >= b.len() || (i < a.len() && a[i] < b[j]) {
            x = a[i];
            i = i + 1;
        } else if i >= a.len() || b[j] < a[i] {
            x = b[j];
            j = j + 1;
        } else {
            x = a[i];
            i = i + 1;
            j = j + 1;
        }
        out.push(x);
        proof {
            let na = a@.take(i as int);
            let nb = b@.take(j as int);
            assert(out@.to_set() =~= na.to_set() + nb.to_set()) by {
                assert forall|y: u64| out@.contains(y) <==> (na.contains(y) || nb.contains(y)) by {
                    if out@.contains(y) {
                        let k = choose|k: int| 0 <= k < out@.len() && out@[k] == y;
                        if k < old_out.len() {
                            assert(old_out.contains(y));
                            assert(old_out.to_set().contains(y));
                            if ta.contains(y) {
                                let q = choose|q: int| 0 <= q < ta.len() && ta[q] == y;
                                assert(na[q] == y);
                            } else {
                                assert(tb.to_set().contains(y));
                                let q = choose|q: int| 0 <= q < tb.len() && tb[q] == y;
                                assert(nb[q] == y);
                            }
                        } else {
                            if na.len() > ta.len() {
                                assert(na[ta.len() as int] == y);
                            } else {
                                assert(nb[tb.len() as int] == y);
                            }
                        }
                    }
                    if na.contains(y) {
                        let q = choose|q: int| 0 <= q < na.len() && na[q] == y;
                        if q < ta.len() {
                            assert(ta[q] == y);
                            assert(ta.to_set().contains(y));
                            assert(old_out.to_set().contains(y));
                            let k = choose|k: int| 0 <= k < old_out.len() && old_out[k] == y;
                            assert(out@[k] == y);
                        } else {
                            assert(out@[old_out.len() as int] == y);
                        }
                    }
                    if nb.contains(y) {
                        let q = choose|q: int| 0 <= q < nb.len() && nb[q] == y;
                        if q < tb.len() {
                            assert(tb[q] == y);
                            assert(tb.to_set().contains(y));
                            assert(old_out.to_set().contains(y));
                            let k = choose|k: int| 0 <= k < old_out.len() && old_out[k] == y;
                            assert(out@[k] == y);
                        } else {
                            assert(out@[old_out.len() as int] == y);
                        }
                    }
                }
            }
            assert forall|p: int, q: int| 0 <= p < q < out@.len() implies #[trigger] out@[p] < #[trigger] out@[q] by {
                if q == old_out.len() {
                    if p < old_out.len() - 1 {
                        assert(old_out[p] < old_out.last());
                    }
                }
            }
        }
    }
    proof {
        assert(a@.take(a.len() as int) == a@);
        assert(b@.take(b.len() as int) == b@);
    }
    out
}

/// The distinct values of `v[lo..hi]`, in increasing order.
pub fn sort_unique(v: &[u64], lo: usize, hi: usize) -> (r: Vec<u64>)
    requires
        lo <= hi <= v@.len(),
    ensures
        strictly_sorted(r@),
        r@.to_set() == v@.subrange(lo as int, hi as int).to_set(),
    decreases hi - lo,
{
    if hi - lo == 0 {
        let r: Vec<u64> = Vec::new();
        proof {
            assert(r@.to_set() =~= v@.subrange(lo as int, hi as int).to_set());
        }
        return r;
    }
    if hi - lo == 1 {
        let mut r: Vec<u64> = Vec::new();
        r.push(v[lo]);
        proof {
            assert(r@ =~= v@.subrange(lo as int, hi as int));
        }
        return r;
    }
    let mid = lo + (hi - lo) / 2;
    let left = sort_unique(v, lo, mid);
    let right = sort_unique(v, mid, hi);
    let r = merge_union(&left, &right);
    proof {
        let whole = v@.subrange(lo as int, hi as int);
        let l = v@.subrange(lo as int, mid as int);
        let rr = v@.subrange(mid as int, hi as int);
        assert(whole =~= l + rr);
        assert(whole.to_set() =~= l.to_set() + rr.to_set()) by {
            assert forall|y: u64| whole.contains(y) <==> (l.contains(y) || rr.contains(y)) by {
                if whole.contains(y) {
                    let k = choose|k: int| 0 <= k < whole.len() && whole[k] == y;
                    if k < l.len() {
                        assert(l[k] == y);
                    } else {
                        assert(rr[k - l.len()] == y);
                    }
                }
                if l.contains(y) {
                    let k = choose|k: int| 0 <= k < l.len() && l[k] == y;
                    assert(whole[k] == y);
                }
                if rr.contains(y) {
                    let k = choose|k: int| 0 <= k < rr.len() && rr[k] == y;
                    assert(whole[k + l.len()] == y);
                }
            }
        }
    }
    r
}

} // verus!
