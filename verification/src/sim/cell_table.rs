//! The integer core of the triangle and edge spatial hashes: each item
//! (triangle or edge) covers a box of grid cells, and each cell lists the
//! items that cover it.

use std::collections::{HashMap, HashSet};
use vstd::std_specs::iter::IteratorSpec;
use vstd::prelude::*;

use crate::sim::paper_sim::spec_normalise_edge;
use crate::sim::shared::{candidate_pairs, cell_lists, cell_pair, cell_pair_at, cell_slot, lex_less};

verus! {

broadcast use vstd::std_specs::hash::group_hash_axioms;

/// Packs a grid cell into one `u128` key.
pub open spec fn cell_key(c: (i32, i32, i32)) -> u128 {
    ((c.0 as u32) as int * 0x1_0000_0000_0000_0000 + (c.1 as u32) as int * 0x1_0000_0000 + (c.2 as u32) as int) as u128
}

proof fn lemma_cell_key_injective(a: (i32, i32, i32), b: (i32, i32, i32))
    ensures
        cell_key(a) == cell_key(b) ==> a == b,
{
    let (x, y, z) = ((a.0 as u32) as int, (a.1 as u32) as int, (a.2 as u32) as int);
    let (u, v, w) = ((b.0 as u32) as int, (b.1 as u32) as int, (b.2 as u32) as int);
    assert(x * 0x1_0000_0000_0000_0000 + y * 0x1_0000_0000 + z <= 0xffff_ffff_ffff_ffff_ffff_ffff) by (nonlinear_arith)
        requires
            0 <= x < 0x1_0000_0000,
            0 <= y < 0x1_0000_0000,
            0 <= z < 0x1_0000_0000,
    {
    }
    assert(u * 0x1_0000_0000_0000_0000 + v * 0x1_0000_0000 + w <= 0xffff_ffff_ffff_ffff_ffff_ffff) by (nonlinear_arith)
        requires
            0 <= u < 0x1_0000_0000,
            0 <= v < 0x1_0000_0000,
            0 <= w < 0x1_0000_0000,
    {
    }
    assert(x * 0x1_0000_0000_0000_0000 + y * 0x1_0000_0000 + z == u * 0x1_0000_0000_0000_0000 + v * 0x1_0000_0000 + w
        ==> x == u && y == v && z == w) by (nonlinear_arith)
        requires
            0 <= x < 0x1_0000_0000,
            0 <= y < 0x1_0000_0000,
            0 <= z < 0x1_0000_0000,
            0 <= u < 0x1_0000_0000,
            0 <= v < 0x1_0000_0000,
            0 <= w < 0x1_0000_0000,
    {
        if x * 0x1_0000_0000_0000_0000 + y * 0x1_0000_0000 + z == u * 0x1_0000_0000_0000_0000 + v * 0x1_0000_0000 + w {
            let p = y * 0x1_0000_0000 + z;
            let q = v * 0x1_0000_0000 + w;
            assert(p < 0x1_0000_0000_0000_0000);
            assert(q < 0x1_0000_0000_0000_0000);
            if x < u {
                assert(x * 0x1_0000_0000_0000_0000 + p < (x + 1) * 0x1_0000_0000_0000_0000);
                assert((x + 1) * 0x1_0000_0000_0000_0000 <= u * 0x1_0000_0000_0000_0000);
            } else if x > u {
                assert(u * 0x1_0000_0000_0000_0000 + q < (u + 1) * 0x1_0000_0000_0000_0000);
                assert((u + 1) * 0x1_0000_0000_0000_0000 <= x * 0x1_0000_0000_0000_0000);
            }
            assert(p == q);
            if y < v {
                assert(y * 0x1_0000_0000 + z < (y + 1) * 0x1_0000_0000);
                assert((y + 1) * 0x1_0000_0000 <= v * 0x1_0000_0000);
            } else if y > v {
                assert(v * 0x1_0000_0000 + w < (v + 1) * 0x1_0000_0000);
                assert((v + 1) * 0x1_0000_0000 <= y * 0x1_0000_0000);
            }
        }
    }
    let (a0, a1, a2, b0, b1, b2) = (a.0, a.1, a.2, b.0, b.1, b.2);
    assert((a0 as u32) == (b0 as u32) ==> a0 == b0) by (bit_vector);
    assert((a1 as u32) == (b1 as u32) ==> a1 == b1) by (bit_vector);
    assert((a2 as u32) == (b2 as u32) ==> a2 == b2) by (bit_vector);
}

/// The key of cell `c`.
pub fn pack_cell(c: (i32, i32, i32)) -> (r: u128)
    ensures
        r == cell_key(c),
{
    let x = c.0 as u32 as u128;
    let y = c.1 as u32 as u128;
    let z = c.2 as u32 as u128;
    assert(x * 0x1_0000_0000_0000_0000 + y * 0x1_0000_0000 + z <= 0xffff_ffff_ffff_ffff_ffff_ffff) by (nonlinear_arith)
        requires
            x < 0x1_0000_0000,
            y < 0x1_0000_0000,
            z < 0x1_0000_0000,
    {
    }
    x * 0x1_0000_0000_0000_0000 + y * 0x1_0000_0000 + z
}

/// Cell `c` lies in the inclusive box `b` (its low and high corners).
pub open spec fn in_box(b: ((i32, i32, i32), (i32, i32, i32)), c: (i32, i32, i32)) -> bool {
    &&& b.0.0 <= c.0 <= b.1.0
    &&& b.0.1 <= c.1 <= b.1.1
    &&& b.0.2 <= c.2 <= b.1.2
}

/// The items among the first `m` whose boxes cover cell `c`, in order.
pub open spec fn items_at(boxes: Seq<((i32, i32, i32), (i32, i32, i32))>, c: (i32, i32, i32), m: int) -> Seq<u32>
    decreases m,
{
    if m <= 0 {
        Seq::empty()
    } else {
        let p = items_at(boxes, c, m - 1);
        if in_box(boxes[m - 1], c) { p.push((m - 1) as u32) } else { p }
    }
}

/// Two inclusive cell boxes share a cell.
pub open spec fn boxes_overlap(a: ((i32, i32, i32), (i32, i32, i32)), b: ((i32, i32, i32), (i32, i32, i32))) -> bool {
    &&& a.0.0 <= b.1.0 && b.0.0 <= a.1.0 && a.0.0 <= a.1.0 && b.0.0 <= b.1.0
    &&& a.0.1 <= b.1.1 && b.0.1 <= a.1.1 && a.0.1 <= a.1.1 && b.0.1 <= b.1.1
    &&& a.0.2 <= b.1.2 && b.0.2 <= a.1.2 && a.0.2 <= a.1.2 && b.0.2 <= b.1.2
}

proof fn lemma_items_at_contains(boxes: Seq<((i32, i32, i32), (i32, i32, i32))>, c: (i32, i32, i32), m: int, x: u32)
    requires
        0 <= m <= boxes.len() <= u32::MAX + 1,
    ensures
        items_at(boxes, c, m).contains(x) <==> (x < m && in_box(boxes[x as int], c)),
    decreases m,
{
    if m > 0 {
        lemma_items_at_contains(boxes, c, m - 1, x);
        let p = items_at(boxes, c, m - 1);
        if in_box(boxes[m - 1], c) {
            let q = p.push((m - 1) as u32);
            assert(q[p.len() as int] == (m - 1) as u32);
            if q.contains(x) {
                let k = choose|k: int| 0 <= k < q.len() && q[k] == x;
                if k < p.len() {
                    assert(p[k] == x);
                }
            }
            if p.contains(x) {
                let k = choose|k: int| 0 <= k < p.len() && p[k] == x;
                assert(q[k] == x);
            }
        }
    }
}

/// A rebuilt table answers a box query with exactly the items whose boxes
/// share a cell with the query box.
pub proof fn lemma_query_finds_overlapping_boxes(
    t: CellTable,
    boxes: Seq<((i32, i32, i32), (i32, i32, i32))>,
    lo: (i32, i32, i32),
    hi: (i32, i32, i32),
    x: u32,
)
    requires
        boxes.len() <= u32::MAX + 1,
        forall|c: (i32, i32, i32)| #[trigger] t.list_at(c) == items_at(boxes, c, boxes.len() as int),
    ensures
        (exists|c: (i32, i32, i32)| in_box((lo, hi), c) && #[trigger] t.list_at(c).contains(x))
            <==> (x < boxes.len() && boxes_overlap(boxes[x as int], (lo, hi))),
{
    if exists|c: (i32, i32, i32)| in_box((lo, hi), c) && #[trigger] t.list_at(c).contains(x) {
        let c = choose|c: (i32, i32, i32)| in_box((lo, hi), c) && #[trigger] t.list_at(c).contains(x);
        lemma_items_at_contains(boxes, c, boxes.len() as int, x);
    }
    if x < boxes.len() && boxes_overlap(boxes[x as int], (lo, hi)) {
        let b = boxes[x as int];
        let c = (
            if b.0.0 < lo.0 { lo.0 } else { b.0.0 },
            if b.0.1 < lo.1 { lo.1 } else { b.0.1 },
            if b.0.2 < lo.2 { lo.2 } else { b.0.2 },
        );
        assert(in_box(b, c) && in_box((lo, hi), c));
        lemma_items_at_contains(boxes, c, boxes.len() as int, x);
        assert(t.list_at(c).contains(x));
    }
}

/// Cell `c` comes before `(x, y, z)` in the order a box is walked (x, then
/// y, then z).
pub open spec fn walked_before(c: (i32, i32, i32), x: int, y: int, z: int) -> bool {
    c.0 < x || (c.0 == x && (c.1 < y || (c.1 == y && c.2 < z)))
}

/// Items `a < b` (written smaller first) listed together in some cell of
/// `t`, at positions `i < j`.
pub open spec fn shares_cell(t: CellTable, a: u32, b: u32) -> bool {
    exists|c: (i32, i32, i32), i: int, j: int| 0 <= i < j < t.list_at(c).len()
        && #[trigger] spec_normalise_edge(t.list_at(c)[i], t.list_at(c)[j]) == (a, b)
}

/// `l` is the nonempty list of some cell of `t`.
pub open spec fn is_cell_list(t: CellTable, l: Seq<u32>) -> bool {
    exists|c: (i32, i32, i32)| #[trigger] t.list_at(c) == l && l.len() > 0
}

/// `cs` lists distinct cells, which are the nonempty cells of `t` and no
/// others, and `lists` holds their lists in the same order.
pub open spec fn lists_each_cell_once(t: CellTable, cs: Seq<(i32, i32, i32)>, lists: Seq<Vec<u32>>) -> bool {
    &&& cs.len() == lists.len()
    &&& cs.no_duplicates()
    &&& forall|i: int| 0 <= i < cs.len() ==> #[trigger] lists[i]@ == t.list_at(cs[i]) && t.list_at(cs[i]).len() > 0
    &&& forall|c: (i32, i32, i32)| #[trigger] t.list_at(c).len() > 0 ==> cs.contains(c)
}

/// Grid cells and the items that cover them.
pub struct CellTable {
    cells: HashMap<u128, Vec<u32>>,
}

impl CellTable {
    /// The items listed in cell `c`, in order.
    pub closed spec fn list_at(&self, c: (i32, i32, i32)) -> Seq<u32> {
        if self.cells@.contains_key(cell_key(c)) { self.cells@[cell_key(c)]@ } else { Seq::empty() }
    }

    /// Every stored key is a cell's, with a nonempty list.
    pub closed spec fn wf(&self) -> bool {
        forall|k: u128| #[trigger] self.cells@.contains_key(k)
            ==> exists|c: (i32, i32, i32)| cell_key(c) == k && self.cells@[k]@.len() > 0
    }

    /// An empty table.
    pub fn new() -> (r: Self)
        ensures
            r.wf(),
            forall|c: (i32, i32, i32)| #[trigger] r.list_at(c) == Seq::<u32>::empty(),
    {
        CellTable { cells: HashMap::new() }
    }

    /// Adds item `i` to cell `c`.
    fn add(&mut self, c: (i32, i32, i32), i: u32)
        ensures
            old(self).wf() ==> final(self).wf(),
            final(self).list_at(c) == old(self).list_at(c).push(i),
            forall|d: (i32, i32, i32)| d != c ==> #[trigger] final(self).list_at(d) == old(self).list_at(d),
    {
        let k = pack_cell(c);
        let mut list = match self.cells.remove(&k) {
            Some(v) => v,
            None => Vec::new(),
        };
        list.push(i);
        self.cells.insert(k, list);
        proof {
            assert forall|d: (i32, i32, i32)| d != c implies #[trigger] self.list_at(d) == old(self).list_at(d) by {
                lemma_cell_key_injective(c, d);
            }
            if old(self).wf() {
                assert forall|k2: u128| #[trigger] self.cells@.contains_key(k2)
                    implies exists|c2: (i32, i32, i32)| cell_key(c2) == k2 && self.cells@[k2]@.len() > 0 by {
                    if k2 == k {
                        assert(cell_key(c) == k2 && self.cells@[k2]@.len() > 0);
                    } else {
                        assert(old(self).cells@.contains_key(k2));
                    }
                }
            }
        }
    }

    /// Empties the table and lists each item (in order) in every cell of its
    /// box: afterwards cell `c` lists, in increasing order, the items whose
    /// boxes cover `c`.
    pub fn rebuild(&mut self, boxes: &[((i32, i32, i32), (i32, i32, i32))])
        requires
            boxes.len() <= u32::MAX + 1,
        ensures
            final(self).wf(),
            forall|c: (i32, i32, i32)| #[trigger] final(self).list_at(c) == items_at(boxes@, c, boxes.len() as int),
    {
        self.cells = HashMap::new();
        let mut i: usize = 0;
        while i < boxes.len()
            invariant
                0 <= i <= boxes.len() <= u32::MAX + 1,
                self.wf(),
                forall|c: (i32, i32, i32)| #[trigger] self.list_at(c) == items_at(boxes@, c, i as int),
            decreases boxes.len() - i,
        {
            let (lo, hi) = boxes[i];
            let ghost b = boxes@[i as int];
            let mut x: i64 = lo.0 as i64;
            while x <= hi.0 as i64
                invariant
                    0 <= i < boxes.len() <= u32::MAX + 1,
                    self.wf(),
                    b == boxes@[i as int],
                    b == (lo, hi),
                    lo.0 <= x && (x <= hi.0 as i64 + 1 || x == lo.0),
                    forall|c: (i32, i32, i32)| #[trigger] self.list_at(c) == (if in_box(b, c) && walked_before(c, x as int, lo.1 as int, lo.2 as int) {
                        items_at(boxes@, c, i as int).push(i as u32)
                    } else {
                        items_at(boxes@, c, i as int)
                    }),
                decreases hi.0 as i64 + 1 - x,
            {
                let mut y: i64 = lo.1 as i64;
                while y <= hi.1 as i64
                    invariant
                        0 <= i < boxes.len() <= u32::MAX + 1,
                    self.wf(),
                        b == (lo, hi),
                        lo.0 <= x <= hi.0,
                        lo.1 <= y && (y <= hi.1 as i64 + 1 || y == lo.1),
                        forall|c: (i32, i32, i32)| #[trigger] self.list_at(c) == (if in_box(b, c) && walked_before(c, x as int, y as int, lo.2 as int) {
                            items_at(boxes@, c, i as int).push(i as u32)
                        } else {
                            items_at(boxes@, c, i as int)
                        }),
                    decreases hi.1 as i64 + 1 - y,
                {
                    let mut z: i64 = lo.2 as i64;
                    while z <= hi.2 as i64
                        invariant
                            0 <= i < boxes.len() <= u32::MAX + 1,
                    self.wf(),
                            b == (lo, hi),
                            lo.0 <= x <= hi.0,
                            lo.1 <= y <= hi.1,
                            lo.2 <= z && (z <= hi.2 as i64 + 1 || z == lo.2),
                            forall|c: (i32, i32, i32)| #[trigger] self.list_at(c) == (if in_box(b, c) && walked_before(c, x as int, y as int, z as int) {
                                items_at(boxes@, c, i as int).push(i as u32)
                            } else {
                                items_at(boxes@, c, i as int)
                            }),
                        decreases hi.2 as i64 + 1 - z,
                    {
                        let cell = (x as i32, y as i32, z as i32);
                        assert(cell.0 == x && cell.1 == y && cell.2 == z);
                        self.add(cell, i as u32);
                        proof {
                            assert forall|c: (i32, i32, i32)| #[trigger] self.list_at(c) == (if in_box(b, c) && walked_before(c, x as int, y as int, z + 1) {
                                items_at(boxes@, c, i as int).push(i as u32)
                            } else {
                                items_at(boxes@, c, i as int)
                            }) by {
                                if c == cell {
                                    assert(in_box(b, c));
                                    assert(!walked_before(c, x as int, y as int, z as int));
                                }
                            }
                        }
                        z = z + 1;
                    }
                    proof {
                        assert forall|c: (i32, i32, i32)| #[trigger] self.list_at(c) == (if in_box(b, c) && walked_before(c, x as int, y + 1, lo.2 as int) {
                            items_at(boxes@, c, i as int).push(i as u32)
                        } else {
                            items_at(boxes@, c, i as int)
                        }) by {
                            assert(in_box(b, c) ==> (walked_before(c, x as int, y as int, z as int) == walked_before(c, x as int, y + 1, lo.2 as int)));
                        }
                    }
                    y = y + 1;
                }
                proof {
                    assert forall|c: (i32, i32, i32)| #[trigger] self.list_at(c) == (if in_box(b, c) && walked_before(c, x + 1, lo.1 as int, lo.2 as int) {
                        items_at(boxes@, c, i as int).push(i as u32)
                    } else {
                        items_at(boxes@, c, i as int)
                    }) by {
                        assert(in_box(b, c) ==> (walked_before(c, x as int, y as int, lo.2 as int) == walked_before(c, x + 1, lo.1 as int, lo.2 as int)));
                    }
                }
                x = x + 1;
            }
            proof {
                assert forall|c: (i32, i32, i32)| #[trigger] self.list_at(c) == items_at(boxes@, c, i + 1) by {
                    assert(in_box(b, c) ==> walked_before(c, x as int, lo.1 as int, lo.2 as int));
                }
            }
            i = i + 1;
        }
    }

    /// The items listed in any cell of the inclusive box `(lo, hi)`.
    pub fn query_box(&self, lo: (i32, i32, i32), hi: (i32, i32, i32)) -> (r: HashSet<u32>)
        ensures
            forall|x: u32| #[trigger] r@.contains(x) <==> exists|c: (i32, i32, i32)| in_box((lo, hi), c) && #[trigger] self.list_at(c).contains(x),
    {
        let mut out: HashSet<u32> = HashSet::new();
        let mut cx: i64 = lo.0 as i64;
        while cx <= hi.0 as i64
            invariant
                lo.0 <= cx && (cx <= hi.0 as i64 + 1 || cx == lo.0),
                forall|x: u32| #[trigger] out@.contains(x) <==> exists|c: (i32, i32, i32)| in_box((lo, hi), c)
                    && walked_before(c, cx as int, lo.1 as int, lo.2 as int) && #[trigger] self.list_at(c).contains(x),
            decreases hi.0 as i64 + 1 - cx,
        {
            let mut cy: i64 = lo.1 as i64;
            while cy <= hi.1 as i64
                invariant
                    lo.0 <= cx <= hi.0,
                    lo.1 <= cy && (cy <= hi.1 as i64 + 1 || cy == lo.1),
                    forall|x: u32| #[trigger] out@.contains(x) <==> exists|c: (i32, i32, i32)| in_box((lo, hi), c)
                        && walked_before(c, cx as int, cy as int, lo.2 as int) && #[trigger] self.list_at(c).contains(x),
                decreases hi.1 as i64 + 1 - cy,
            {
                let mut cz: i64 = lo.2 as i64;
                while cz <= hi.2 as i64
                    invariant
                        lo.0 <= cx <= hi.0,
                        lo.1 <= cy <= hi.1,
                        lo.2 <= cz && (cz <= hi.2 as i64 + 1 || cz == lo.2),
                        forall|x: u32| #[trigger] out@.contains(x) <==> exists|c: (i32, i32, i32)| in_box((lo, hi), c)
                            && walked_before(c, cx as int, cy as int, cz as int) && #[trigger] self.list_at(c).contains(x),
                    decreases hi.2 as i64 + 1 - cz,
                {
                    let cell = (cx as i32, cy as i32, cz as i32);
                    self.extend_from_cell(&mut out, cell);
                    proof {
                        assert forall|x: u32| #[trigger] out@.contains(x) <==> exists|c: (i32, i32, i32)| in_box((lo, hi), c)
                            && walked_before(c, cx as int, cy as int, cz + 1) && #[trigger] self.list_at(c).contains(x) by {
                            if self.list_at(cell).contains(x) {
                                assert(in_box((lo, hi), cell) && walked_before(cell, cx as int, cy as int, cz + 1));
                            }
                            if exists|c: (i32, i32, i32)| in_box((lo, hi), c) && walked_before(c, cx as int, cy as int, cz + 1)
                                && #[trigger] self.list_at(c).contains(x) {
                                let c = choose|c: (i32, i32, i32)| in_box((lo, hi), c) && walked_before(c, cx as int, cy as int, cz + 1)
                                    && #[trigger] self.list_at(c).contains(x);
                                if c != cell {
                                    assert(walked_before(c, cx as int, cy as int, cz as int));
                                }
                            }
                        }
                    }
                    cz = cz + 1;
                }
                proof {
                    assert forall|c: (i32, i32, i32)| in_box((lo, hi), c) implies
                        walked_before(c, cx as int, cy as int, cz as int) == walked_before(c, cx as int, cy + 1, lo.2 as int) by {}
                }
                cy = cy + 1;
            }
            proof {
                assert forall|c: (i32, i32, i32)| in_box((lo, hi), c) implies
                    walked_before(c, cx as int, cy as int, lo.2 as int) == walked_before(c, cx + 1, lo.1 as int, lo.2 as int) by {}
            }
            cx = cx + 1;
        }
        proof {
            assert forall|c: (i32, i32, i32)| in_box((lo, hi), c) implies walked_before(c, cx as int, lo.1 as int, lo.2 as int) by {}
        }
        out
    }

    /// Adds the items of cell `c` to `out`.
    fn extend_from_cell(&self, out: &mut HashSet<u32>, c: (i32, i32, i32))
        ensures
            forall|x: u32| #[trigger] final(out)@.contains(x) <==> old(out)@.contains(x) || self.list_at(c).contains(x),
    {
        let k = pack_cell(c);
        match self.cells.get(&k) {
            Some(list) => {
                let mut j: usize = 0;
                while j < list.len()
                    invariant
                        0 <= j <= list.len(),
                        list@ == self.list_at(c),
                        forall|x: u32| #[trigger] out@.contains(x) <==> old(out)@.contains(x) || list@.take(j as int).contains(x),
                    decreases list.len() - j,
                {
                    let ghost before = out@;
                    out.insert(list[j]);
                    proof {
                        assert forall|x: u32| #[trigger] out@.contains(x) <==> old(out)@.contains(x) || list@.take(j + 1).contains(x) by {
                            let lo = list@.take(j as int);
                            let hi = list@.take(j + 1);
                            if lo.contains(x) {
                                let p = choose|p: int| 0 <= p < lo.len() && lo[p] == x;
                                assert(hi[p] == x);
                            }
                            if hi.contains(x) {
                                let p = choose|p: int| 0 <= p < hi.len() && hi[p] == x;
                                if p < j {
                                    assert(lo[p] == x);
                                }
                            }
                            if x == list@[j as int] {
                                assert(hi[j as int] == x);
                            }
                        }
                    }
                    j = j + 1;
                }
                assert(list@.take(list@.len() as int) == list@);
            },
            None => {},
        }
    }
}

impl CellTable {
    /// The lists of the nonempty cells, each once, in the table's own order.
    pub fn cell_lists(&self) -> (r: Vec<Vec<u32>>)
        requires
            self.wf(),
        ensures
            forall|t: int| 0 <= t < r@.len() ==> #[trigger] is_cell_list(*self, r@[t]@),
            forall|c: (i32, i32, i32)| #[trigger] self.list_at(c).len() > 0 ==> exists|t: int| 0 <= t < r.len() && r[t]@ == self.list_at(c),
            exists|cs: Seq<(i32, i32, i32)>| #[trigger] lists_each_cell_once(*self, cs, r@),
    {
        let mut out: Vec<Vec<u32>> = Vec::new();
        let ghost remaining = self.cells.keys().remaining();
        let ghost keys = remaining.unref();
        proof {
            assert(remaining.no_duplicates());
            assert(keys.len() == remaining.len());
            assert forall|i: int, j: int| 0 <= i < j < keys.len() implies keys[i] != keys[j] by {
                assert(keys[i] == *remaining[i]);
                assert(keys[j] == *remaining[j]);
            }
            assert(keys.no_duplicates());
        }
        for kr in it: self.cells.keys()
            invariant
                self.wf(),
                keys == it.seq().map_values(|r: &u128| *r),
                keys.to_set() == self.cells@.dom(),
                out.len() == it.index(),
                forall|t: int| 0 <= t < out.len() ==> self.cells@.contains_key(#[trigger] keys[t]) && out[t]@ == self.cells@[keys[t]]@,
        {
            let k = *kr;
            let ghost j = it.index() as int;
            assert(keys[j] == k);
            assert(keys.to_set().contains(k));
            match self.cells.get(&k) {
                Some(list) => {
                    let mut copy: Vec<u32> = Vec::new();
                    let mut p: usize = 0;
                    while p < list.len()
                        invariant
                            0 <= p <= list.len(),
                            copy@ == list@.take(p as int),
                        decreases list.len() - p,
                    {
                        copy.push(list[p]);
                        p = p + 1;
                        assert(copy@ == list@.take(p as int));
                    }
                    assert(list@.take(list@.len() as int) == list@);
                    out.push(copy);
                },
                None => {
                    out.push(Vec::new());
                },
            }
        }
        proof {
            assert forall|t: int| 0 <= t < out@.len() implies #[trigger] is_cell_list(*self, out@[t]@) by {
                let k = keys[t];
                assert(self.cells@.contains_key(k));
                assert(out@[t]@ == self.cells@[k]@);
                let c = choose|c: (i32, i32, i32)| cell_key(c) == k && self.cells@[k]@.len() > 0;
                assert(self.list_at(c) == self.cells@[k]@);
            }
            assert forall|c: (i32, i32, i32)| #[trigger] self.list_at(c).len() > 0 implies exists|t: int| 0 <= t < out.len() && out[t]@ == self.list_at(c) by {
                let k = cell_key(c);
                assert(self.cells@.contains_key(k));
                assert(keys.to_set().contains(k));
                let t = choose|t: int| 0 <= t < keys.len() && keys[t] == k;
                assert(out[t]@ == self.cells@[keys[t]]@);
            }
            assert(out.len() == keys.len());
            let cs = Seq::new(keys.len(), |t: int| choose|c: (i32, i32, i32)| cell_key(c) == keys[t]);
            assert forall|t: int| 0 <= t < cs.len() implies cell_key(#[trigger] cs[t]) == keys[t] by {
                assert(self.cells@.contains_key(keys[t]));
            }
            assert forall|i: int, j: int| 0 <= i < j < cs.len() implies cs[i] != cs[j] by {
                assert(cell_key(cs[i]) == keys[i]);
                assert(cell_key(cs[j]) == keys[j]);
            }
            assert forall|i: int| 0 <= i < cs.len() implies #[trigger] out@[i]@ == self.list_at(cs[i]) && self.list_at(cs[i]).len() > 0 by {
                assert(cell_key(cs[i]) == keys[i]);
                assert(self.cells@.contains_key(keys[i]));
                assert(out@[i]@ == self.cells@[keys[i]]@);
            }
            assert forall|c: (i32, i32, i32)| #[trigger] self.list_at(c).len() > 0 implies cs.contains(c) by {
                let k = cell_key(c);
                assert(self.cells@.contains_key(k));
                assert(keys.to_set().contains(k));
                let t = choose|t: int| 0 <= t < keys.len() && keys[t] == k;
                assert(cell_key(cs[t]) == k);
                lemma_cell_key_injective(cs[t], c);
                assert(cs[t] == c);
            }
            assert(lists_each_cell_once(*self, cs, out@));
        }
        out
    }

    /// Pairs of items listed together in some cell, smaller first, each
    /// once, in increasing lexicographic order: the broad-phase candidates
    /// of edge-edge contact.
    pub fn candidate_pairs(&self) -> (r: Vec<(usize, usize)>)
        requires
            self.wf(),
        ensures
            forall|s: int, t: int| 0 <= s < t < r@.len() ==> lex_less(#[trigger] r@[s], #[trigger] r@[t]),
            forall|t: int| 0 <= t < r@.len() ==> #[trigger] r@[t].0 <= u32::MAX && r@[t].1 <= u32::MAX
                && shares_cell(*self, r@[t].0 as u32, r@[t].1 as u32),
            forall|a: u32, b: u32| #[trigger] shares_cell(*self, a, b) ==> exists|t: int| 0 <= t < r@.len() && r@[t] == (a as usize, b as usize),
    {
        let lists = self.cell_lists();
        let r = candidate_pairs(lists.as_slice());
        proof {
            lemma_lists_share_cells(*self, lists@);
        }
        r
    }
}

proof fn lemma_lists_share_cells(table: CellTable, lists: Seq<Vec<u32>>)
    requires
        forall|t: int| 0 <= t < lists.len() ==> #[trigger] is_cell_list(table, lists[t]@),
        forall|c: (i32, i32, i32)| #[trigger] table.list_at(c).len() > 0 ==> exists|t: int| 0 <= t < lists.len() && lists[t]@ == table.list_at(c),
    ensures
        forall|a: u32, b: u32| cell_pair(cell_lists(lists), a, b) <==> #[trigger] shares_cell(table, a, b),
{
    let cs = cell_lists(lists);
    assert forall|a: u32, b: u32| cell_pair(cs, a, b) <==> #[trigger] shares_cell(table, a, b) by {
        if cell_pair(cs, a, b) {
            let (t, i, j) = choose|t: int, i: int, j: int| cell_slot(cs, t, i, j) && #[trigger] cell_pair_at(cs, t, i, j) == (a, b);
            assert(cs[t] == lists[t]@);
            assert(is_cell_list(table, lists[t]@));
            let c = choose|c: (i32, i32, i32)| #[trigger] table.list_at(c) == lists[t]@ && lists[t]@.len() > 0;
            assert(spec_normalise_edge(table.list_at(c)[i], table.list_at(c)[j]) == (a, b));
        }
        if shares_cell(table, a, b) {
            let (c, i, j) = choose|c: (i32, i32, i32), i: int, j: int| 0 <= i < j < table.list_at(c).len()
                && #[trigger] spec_normalise_edge(table.list_at(c)[i], table.list_at(c)[j]) == (a, b);
            assert(table.list_at(c).len() > 0);
            let t = choose|t: int| 0 <= t < lists.len() && lists[t]@ == table.list_at(c);
            assert(cs[t] == lists[t]@);
            assert(cell_slot(cs, t, i, j));
            assert(cell_pair_at(cs, t, i, j) == (a, b));
        }
    }
}

} // verus!
