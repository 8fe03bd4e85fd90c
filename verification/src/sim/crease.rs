//! Crease-pattern vocabulary, the layout of `.cp` crease-pattern text, and
//! the fold edges and crease chains of a triangulated crease pattern.

use std::collections::{HashMap, HashSet};
use vstd::prelude::*;

use crate::sim::paper_sim::{normalise_edge, spec_normalise_edge};
use crate::sim::shared::{lemma_pack_key_injective, pack, pack_key};

use crate::sim::tokens::{
    chars_of, int_parse, lemma_split_lines_nonempty, parse_int, seqs, split_lines, split_words, words_of,
};

verus! {

broadcast use vstd::std_specs::hash::group_hash_axioms;

/// Kind of a crease line in a `.cp` file.
#[derive(Debug, Clone, Copy, PartialEq, Eq, Structural)]
pub enum CreaseType {
    /// Type 1: edge of the square.
    Boundary,
    /// Type 2: folds away from the camera.
    Mountain,
    /// Type 3: folds toward the camera.
    Valley,
}

/// The crease kind of a `.cp` line's type id; other ids mark lines that are skipped.
pub fn crease_type_from_id(type_id: u32) -> (r: Option<CreaseType>)
    ensures
        r == (if type_id == 1 {
            Some(CreaseType::Boundary)
        } else if type_id == 2 {
            Some(CreaseType::Mountain)
        } else if type_id == 3 {
            Some(CreaseType::Valley)
        } else {
            None
        }),
{
    match type_id {
        1 => Some(CreaseType::Boundary),
        2 => Some(CreaseType::Mountain),
        3 => Some(CreaseType::Valley),
        _ => None,
    }
}

/// The crease kind of type id `t`, as `crease_type_from_id` gives it.
pub open spec fn crease_of(t: int) -> Option<CreaseType> {
    if t == 1 {
        Some(CreaseType::Boundary)
    } else if t == 2 {
        Some(CreaseType::Mountain)
    } else if t == 3 {
        Some(CreaseType::Valley)
    } else {
        None
    }
}

/// Why a `.cp` text has no crease pattern, as far as its layout tells.
#[derive(Debug, Clone, Copy, PartialEq, Eq, Structural)]
pub enum CpError {
    /// A line's type id is no `u32`.
    InvalidType,
    /// No line is a boundary, mountain or valley crease.
    NoLines,
}

/// The error in words.
pub open spec fn cp_error_text(e: CpError) -> Seq<char> {
    match e {
        CpError::InvalidType => "invalid type"@,
        CpError::NoLines => "no valid crease lines found"@,
    }
}

impl CpError {
    /// The error in words.
    pub fn message(&self) -> (r: &'static str)
        ensures
            r@ == cp_error_text(*self),
    {
        match self {
            CpError::InvalidType => "invalid type",
            CpError::NoLines => "no valid crease lines found",
        }
    }
}

/// What reading a `.cp` text gives, as far as the layout goes: for each line
/// of at least five words, the crease kind of its type id (none for ids that
/// name no crease) and its four coordinates as written; and the error that
/// stopped the reading.
pub struct CpAcc {
    pub rows: Seq<(Option<CreaseType>, Seq<Seq<char>>)>,
    pub error: Option<CpError>,
}

/// One line, of words `ws`, read into `acc`.
pub open spec fn cp_line(acc: CpAcc, ws: Seq<Seq<char>>) -> CpAcc {
    if ws.len() < 5 {
        acc
    } else {
        match int_parse(ws[0], false, 0, u32::MAX as int) {
            Err(_) => CpAcc { error: Some(CpError::InvalidType), ..acc },
            Ok(t) => CpAcc { rows: acc.rows.push((crease_of(t), ws.subrange(1, 5))), ..acc },
        }
    }
}

/// The first `m` lines read in order, stopping at the first error.
pub open spec fn cp_scan(lines: Seq<Seq<char>>, m: int) -> CpAcc
    decreases m,
{
    if m <= 0 {
        CpAcc { rows: Seq::empty(), error: None }
    } else {
        let a = cp_scan(lines, m - 1);
        if a.error is Some {
            a
        } else {
            cp_line(a, split_words(lines[m - 1]))
        }
    }
}

/// Some row is a boundary, mountain or valley crease.
pub open spec fn has_crease(rows: Seq<(Option<CreaseType>, Seq<Seq<char>>)>) -> bool {
    exists|i: int| 0 <= i < rows.len() && (#[trigger] rows[i]).0 is Some
}

/// The layout of `.cp` text `text`.
pub open spec fn cp_layout(text: Seq<char>) -> CpAcc {
    let lines = split_lines(text);
    let a = cp_scan(lines, lines.len() as int);
    if a.error is Some {
        a
    } else if !has_crease(a.rows) {
        CpAcc { error: Some(CpError::NoLines), ..a }
    } else {
        a
    }
}

/// The layout of a `.cp` text.
pub struct CpLayout {
    pub rows: Vec<(Option<CreaseType>, Vec<Vec<char>>)>,
    pub error: Option<CpError>,
}

impl CpLayout {
    pub open spec fn acc(&self) -> CpAcc {
        CpAcc {
            rows: self.rows@.map_values(|r: (Option<CreaseType>, Vec<Vec<char>>)| (r.0, seqs(r.1@))),
            error: self.error,
        }
    }
}

proof fn lemma_cp_scan_prefix(a: Seq<Seq<char>>, b: Seq<Seq<char>>, m: int)
    requires
        0 <= m <= a.len(),
        m <= b.len(),
        a.take(m) == b.take(m),
    ensures
        cp_scan(a, m) == cp_scan(b, m),
    decreases m,
{
    if m > 0 {
        assert(a.take(m - 1) == b.take(m - 1)) by {
            assert(a.take(m - 1) == a.take(m).take(m - 1));
            assert(b.take(m - 1) == b.take(m).take(m - 1));
        }
        assert(a[m - 1] == a.take(m)[m - 1]);
        assert(b[m - 1] == b.take(m)[m - 1]);
        lemma_cp_scan_prefix(a, b, m - 1);
    }
}

/// Reads one line (its characters `chars`) into `acc`.
fn read_cp_line(acc: &mut CpLayout, chars: &Vec<char>)
    requires
        old(acc).error is None,
    ensures
        final(acc).acc() == cp_line(old(acc).acc(), split_words(chars@)),
{
    let ws = words_of(chars);
    let ghost w = seqs(ws@);
    if ws.len() < 5 {
        return;
    }
    assert(w[0] == ws[0]@);
    let n0 = ws[0].len();
    assert(ws[0]@.take(n0 as int) == ws[0]@);
    match parse_int(ws[0].as_slice(), n0, false, 0, 0xffff_ffff) {
        Err(_) => {
            let ghost before = acc.acc();
            acc.error = Some(CpError::InvalidType);
            assert(acc.acc() == CpAcc { error: Some(CpError::InvalidType), ..before });
        },
        Ok(t) => {
            let kind = crease_type_from_id(t as u32);
            let mut coords = ws;
            coords.truncate(5);
            coords.remove(0);
            assert(seqs(coords@) =~= w.subrange(1, 5));
            let ghost before = acc.acc().rows;
            acc.rows.push((kind, coords));
            assert(acc.acc().rows =~= before.push((crease_of(t as int), w.subrange(1, 5))));
        },
    }
}

/// Reads the layout of crease-pattern text `text`: each line of at least
/// five words is a crease of type id (a `u32`; 1 boundary, 2 mountain,
/// 3 valley, others kept without a kind) and four coordinates as written;
/// shorter lines are passed over. Reading stops at a type id that is no
/// `u32`; a text without boundary, mountain or valley lines is refused.
pub fn parse_cp_layout(text: &str) -> (r: CpLayout)
    ensures
        r.acc() == cp_layout(text@),
{
    let chars = chars_of(text);
    let mut acc = CpLayout { rows: Vec::new(), error: None };
    assert(acc.acc().rows =~= Seq::empty());
    let mut cur: Vec<char> = Vec::new();
    let ghost mut done: int = 0;
    let mut i: usize = 0;
    proof {
        lemma_split_lines_nonempty(chars@.take(0));
        assert(chars@.take(0) =~= Seq::<char>::empty());
    }
    while i < chars.len()
        invariant
            chars@ == text@,
            0 <= i <= chars.len(),
            0 <= done,
            split_lines(chars@.take(i as int)).len() == done + 1,
            cur@ == split_lines(chars@.take(i as int)).last(),
            acc.acc() == cp_scan(split_lines(chars@.take(i as int)), done),
        decreases chars.len() - i,
    {
        let c = chars[i];
        let ghost ls = split_lines(chars@.take(i as int));
        let ghost ls2 = split_lines(chars@.take(i + 1));
        assert(chars@.take(i + 1).drop_last() == chars@.take(i as int));
        assert(chars@.take(i + 1).last() == c);
        proof {
            lemma_split_lines_nonempty(chars@.take(i as int));
        }
        if c == '\n' {
            assert(ls2 == ls.push(Seq::empty()));
            proof {
                assert(ls.take(done) =~= ls2.take(done));
                lemma_cp_scan_prefix(ls, ls2, done);
            }
            if acc.error.is_none() {
                read_cp_line(&mut acc, &cur);
            }
            proof {
                assert(ls2[done] == cur@);
                assert(cp_scan(ls2, done + 1) == (if cp_scan(ls2, done).error is Some { cp_scan(ls2, done) } else {
                    cp_line(cp_scan(ls2, done), split_words(ls2[done])) }));
                done = done + 1;
            }
            cur = Vec::new();
        } else {
            assert(ls2 == ls.update(ls.len() - 1, ls.last().push(c)));
            proof {
                assert(ls.take(done) =~= ls2.take(done));
                lemma_cp_scan_prefix(ls, ls2, done);
            }
            cur.push(c);
        }
        i = i + 1;
    }
    assert(chars@.take(chars@.len() as int) == chars@);
    let ghost ls = split_lines(text@);
    if acc.error.is_none() {
        read_cp_line(&mut acc, &cur);
    }
    assert(cp_scan(ls, done + 1) == (if cp_scan(ls, done).error is Some { cp_scan(ls, done) } else {
        cp_line(cp_scan(ls, done), split_words(ls[done])) }));
    if acc.error.is_none() {
        let mut found = false;
        let mut k: usize = 0;
        while k < acc.rows.len()
            invariant
                0 <= k <= acc.rows.len(),
                found == exists|j: int| 0 <= j < k && (#[trigger] acc.acc().rows[j]).0 is Some,
            decreases acc.rows.len() - k,
        {
            assert(acc.acc().rows[k as int].0 == acc.rows[k as int].0);
            if acc.rows[k].0.is_some() {
                found = true;
            }
            k = k + 1;
        }
        if !found {
            acc.error = Some(CpError::NoLines);
        }
    }
    acc
}

/// The key of constraint edge `e`: its endpoints, smaller first.
pub open spec fn constraint_key(e: (u32, u32, CreaseType)) -> (u32, u32) {
    spec_normalise_edge(e.0, e.1)
}

/// The type of the last fold (non-boundary) edge among the first `m`
/// constraint edges whose key is `k`, if there is one.
pub open spec fn last_fold_type(edges: Seq<(u32, u32, CreaseType)>, k: (u32, u32), m: int) -> Option<CreaseType>
    decreases m,
{
    if m <= 0 {
        None
    } else if edges[m - 1].2 != CreaseType::Boundary && constraint_key(edges[m - 1]) == k {
        Some(edges[m - 1].2)
    } else {
        last_fold_type(edges, k, m - 1)
    }
}

/// The fold edges among the constraint edges of a triangulated crease
/// pattern: every key of a mountain or valley constraint edge, once, with the
/// type of its last such edge.
pub fn fold_edge_types(edges: &[(u32, u32, CreaseType)]) -> (r: Vec<((u32, u32), CreaseType)>)
    ensures
        forall|s: int, t: int| 0 <= s < t < r.len() ==> r@[s].0 != r@[t].0,
        forall|t: int| 0 <= t < r.len() ==> last_fold_type(edges@, #[trigger] r@[t].0, edges@.len() as int) == Some(r@[t].1),
        forall|k: (u32, u32)| #[trigger] last_fold_type(edges@, k, edges@.len() as int) is Some
            ==> exists|t: int| 0 <= t < r.len() && r@[t].0 == k,
{
    let mut index: HashMap<u64, usize> = HashMap::new();
    let mut out: Vec<((u32, u32), CreaseType)> = Vec::new();
    let mut i: usize = 0;
    while i < edges.len()
        invariant
            0 <= i <= edges.len(),
            forall|k: (u32, u32)| #[trigger] index@.contains_key(pack_key(k)) <==> last_fold_type(edges@, k, i as int) is Some,
            forall|k: (u32, u32)| #[trigger] index@.contains_key(pack_key(k)) ==> index@[pack_key(k)] < out.len()
                && out@[index@[pack_key(k)] as int] == (k, last_fold_type(edges@, k, i as int)->Some_0),
            forall|t: int| 0 <= t < out.len() ==> index@.contains_key(pack_key(#[trigger] out@[t].0))
                && index@[pack_key(out@[t].0)] == t,
        decreases edges.len() - i,
    {
        let e = edges[i];
        let is_fold = match e.2 {
            CreaseType::Boundary => false,
            _ => true,
        };
        if is_fold {
            let k = normalise_edge(e.0, e.1);
            let key = pack(k);
            let ghost old_index = index@;
            let ghost old_out = out@;
            match index.get(&key) {
                Some(pos) => {
                    let pos = *pos;
                    proof {
                        assert(index@.contains_key(pack_key(k)));
                    }
                    out.set(pos, (k, e.2));
                    proof {
                        assert forall|k2: (u32, u32)| #[trigger] index@.contains_key(pack_key(k2)) implies index@[pack_key(k2)] < out.len()
                            && out@[index@[pack_key(k2)] as int] == (k2, last_fold_type(edges@, k2, i + 1)->Some_0) by {
                            lemma_pack_key_injective(k2, k);
                            if k2 != k {
                                assert(index@[pack_key(k2)] != pos) by {
                                    assert(old_out[index@[pack_key(k2)] as int].0 == k2);
                                    assert(old_out[pos as int].0 == k);
                                }
                            }
                        }
                        assert forall|t: int| 0 <= t < out.len() implies index@.contains_key(pack_key(#[trigger] out@[t].0))
                            && index@[pack_key(out@[t].0)] == t by {
                            if t != pos {
                                assert(out@[t] == old_out[t]);
                            }
                        }
                        assert forall|k2: (u32, u32)| #[trigger] index@.contains_key(pack_key(k2)) <==> last_fold_type(edges@, k2, i + 1) is Some by {
                            lemma_pack_key_injective(k2, k);
                        }
                    }
                }
                None => {
                    let len = out.len();
                    index.insert(key, len);
                    out.push((k, e.2));
                    proof {
                        assert forall|k2: (u32, u32)| #[trigger] index@.contains_key(pack_key(k2)) <==> last_fold_type(edges@, k2, i + 1) is Some by {
                            lemma_pack_key_injective(k2, k);
                        }
                        assert forall|k2: (u32, u32)| #[trigger] index@.contains_key(pack_key(k2)) implies index@[pack_key(k2)] < out.len()
                            && out@[index@[pack_key(k2)] as int] == (k2, last_fold_type(edges@, k2, i + 1)->Some_0) by {
                            lemma_pack_key_injective(k2, k);
                            if k2 != k {
                                assert(old_index.contains_key(pack_key(k2)));
                                assert(out@[old_index[pack_key(k2)] as int] == old_out[old_index[pack_key(k2)] as int]);
                            }
                        }
                        assert forall|t: int| 0 <= t < out.len() implies index@.contains_key(pack_key(#[trigger] out@[t].0))
                            && index@[pack_key(out@[t].0)] == t by {
                            if t < len {
                                assert(out@[t] == old_out[t]);
                                assert(old_index.contains_key(pack_key(old_out[t].0)));
                                lemma_pack_key_injective(old_out[t].0, k);
                            }
                        }
                    }
                }
            }
        } else {
            proof {
                assert forall|k2: (u32, u32)| #[trigger] index@.contains_key(pack_key(k2)) <==> last_fold_type(edges@, k2, i + 1) is Some by {
                }
                assert forall|k2: (u32, u32)| #[trigger] index@.contains_key(pack_key(k2)) implies index@[pack_key(k2)] < out.len()
                    && out@[index@[pack_key(k2)] as int] == (k2, last_fold_type(edges@, k2, i + 1)->Some_0) by {
                }
            }
        }
        i = i + 1;
    }
    proof {
        assert forall|s: int, t: int| 0 <= s < t < out.len() implies out@[s].0 != out@[t].0 by {
            assert(index@[pack_key(out@[s].0)] == s);
            assert(index@[pack_key(out@[t].0)] == t);
        }
        assert forall|t: int| 0 <= t < out.len() implies last_fold_type(edges@, #[trigger] out@[t].0, edges@.len() as int) == Some(out@[t].1) by {
            let k = out@[t].0;
            assert(index@.contains_key(pack_key(k)));
            assert(index@[pack_key(k)] == t);
        }
        assert forall|k: (u32, u32)| #[trigger] last_fold_type(edges@, k, edges@.len() as int) is Some
            implies exists|t: int| 0 <= t < out.len() && out@[t].0 == k by {
            assert(index@.contains_key(pack_key(k)));
            let t = index@[pack_key(k)] as int;
            assert(out@[t].0 == k);
        }
    }
    out
}

/// The maximal runs of consecutive fold edges along `chain` from position
/// `i` on, `cur` being the run in progress: each run lists its vertices in
/// chain order, and runs of fewer than two vertices are left out.
pub open spec fn chain_runs(chain: Seq<u32>, folds: Set<(u32, u32)>, i: int, cur: Seq<u32>) -> Seq<Seq<u32>>
    decreases chain.len() - i,
{
    if i < 0 || i + 1 >= chain.len() {
        if cur.len() >= 2 { seq![cur] } else { Seq::empty() }
    } else if folds.contains(spec_normalise_edge(chain[i], chain[i + 1])) {
        chain_runs(chain, folds, i + 1, if cur.len() == 0 { seq![chain[i], chain[i + 1]] } else { cur.push(chain[i + 1]) })
    } else {
        (if cur.len() >= 2 { seq![cur] } else { Seq::empty() }) + chain_runs(chain, folds, i + 1, Seq::empty())
    }
}

/// The crease chains of the first `m` vertex chains: for each mountain or
/// valley chain in order, its maximal runs of consecutive fold edges.
pub open spec fn crease_runs(chains: Seq<(Seq<u32>, CreaseType)>, folds: Set<(u32, u32)>, m: int) -> Seq<Seq<u32>>
    decreases m,
{
    if m <= 0 {
        Seq::empty()
    } else {
        crease_runs(chains, folds, m - 1) + if chains[m - 1].1 == CreaseType::Boundary {
            Seq::empty()
        } else {
            chain_runs(chains[m - 1].0, folds, 0, Seq::empty())
        }
    }
}

/// The vertex chains with each chain by its view.
pub open spec fn chain_views(chains: Seq<(Vec<u32>, CreaseType)>) -> Seq<(Seq<u32>, CreaseType)> {
    chains.map_values(|c: (Vec<u32>, CreaseType)| (c.0@, c.1))
}

/// The edge keys that a fold-edge list names.
pub open spec fn fold_keys(fold_edges: Seq<((u32, u32), CreaseType)>) -> Set<(u32, u32)> {
    Set::new(|k: (u32, u32)| exists|t: int| 0 <= t < fold_edges.len() && #[trigger] fold_edges[t].0 == k)
}

/// The crease chains along the fold edges: each mountain or valley vertex
/// chain of the crease pattern, in order, split into its maximal runs of
/// consecutive edges that are fold edges; runs of fewer than two vertices
/// are dropped.
pub fn fold_chains(chains: &[(Vec<u32>, CreaseType)], fold_edges: &[((u32, u32), CreaseType)]) -> (r: Vec<Vec<u32>>)
    ensures
        r@.len() == crease_runs(chain_views(chains@), fold_keys(fold_edges@), chains@.len() as int).len(),
        forall|j: int| 0 <= j < r@.len() ==> #[trigger] r@[j]@
            == crease_runs(chain_views(chains@), fold_keys(fold_edges@), chains@.len() as int)[j],
{
    let ghost folds = fold_keys(fold_edges@);
    let ghost cs = chain_views(chains@);
    let mut keys: HashSet<u64> = HashSet::new();
    let mut t: usize = 0;
    while t < fold_edges.len()
        invariant
            0 <= t <= fold_edges.len(),
            forall|k: (u32, u32)| #[trigger] keys@.contains(pack_key(k))
                <==> exists|s: int| 0 <= s < t && #[trigger] fold_edges@[s].0 == k,
        decreases fold_edges.len() - t,
    {
        let k = fold_edges[t].0;
        keys.insert(pack(k));
        proof {
            assert forall|k2: (u32, u32)| #[trigger] keys@.contains(pack_key(k2))
                <==> exists|s: int| 0 <= s < t + 1 && #[trigger] fold_edges@[s].0 == k2 by {
                lemma_pack_key_injective(k2, k);
                if k2 == k {
                    assert(fold_edges@[t as int].0 == k2);
                }
            }
        }
        t = t + 1;
    }
    assert forall|k: (u32, u32)| #[trigger] keys@.contains(pack_key(k)) <==> folds.contains(k) by {
    }
    let mut out: Vec<Vec<u32>> = Vec::new();
    let ghost mut outv: Seq<Seq<u32>> = Seq::empty();
    let mut c: usize = 0;
    while c < chains.len()
        invariant
            0 <= c <= chains.len(),
            cs == chain_views(chains@),
            folds == fold_keys(fold_edges@),
            forall|k: (u32, u32)| #[trigger] keys@.contains(pack_key(k)) <==> folds.contains(k),
            out@.len() == outv.len(),
            forall|j: int| 0 <= j < out@.len() ==> #[trigger] out@[j]@ == outv[j],
            outv == crease_runs(cs, folds, c as int),
        decreases chains.len() - c,
    {
        let chain = &chains[c].0;
        let is_fold = match chains[c].1 {
            CreaseType::Boundary => false,
            _ => true,
        };
        assert(cs[c as int] == (chain@, chains@[c as int].1));
        if is_fold {
            let ghost base = outv;
            let mut cur: Vec<u32> = Vec::new();
            let mut i: usize = 0;
            while i + 1 < chain.len()
                invariant
                    0 <= i,
                    i == 0 || i < chain.len(),
                    forall|k: (u32, u32)| #[trigger] keys@.contains(pack_key(k)) <==> folds.contains(k),
                    out@.len() == outv.len(),
                    forall|j: int| 0 <= j < out@.len() ==> #[trigger] out@[j]@ == outv[j],
                    outv + chain_runs(chain@, folds, i as int, cur@) == base + chain_runs(chain@, folds, 0, Seq::empty()),
                decreases chain.len() - i,
            {
                let a = chain[i];
                let b = chain[i + 1];
                let key = pack(normalise_edge(a, b));
                let ghost runs_here = chain_runs(chain@, folds, i as int, cur@);
                if keys.contains(&key) {
                    let ghost old_cur = cur@;
                    if cur.len() == 0 {
                        cur.push(a);
                    }
                    cur.push(b);
                    proof {
                        assert(folds.contains(spec_normalise_edge(a, b)));
                        if old_cur.len() == 0 {
                            assert(cur@ == seq![chain@[i as int], chain@[i + 1]]);
                        } else {
                            assert(cur@ == old_cur.push(chain@[i + 1]));
                        }
                        assert(runs_here == chain_runs(chain@, folds, i + 1, cur@));
                    }
                } else {
                    proof {
                        assert(!folds.contains(spec_normalise_edge(a, b)));
                    }
                    if cur.len() >= 2 {
                        let ghost done = cur@;
                        let ghost before_push = out@;
                        let finished = cur;
                        out.push(finished);
                        proof {
                            let old_outv = outv;
                            outv = outv.push(done);
                            assert(runs_here == seq![done] + chain_runs(chain@, folds, i + 1, Seq::empty()));
                            assert(old_outv + runs_here =~= outv + chain_runs(chain@, folds, i + 1, Seq::empty()));
                            assert forall|j: int| 0 <= j < out@.len() implies #[trigger] out@[j]@ == outv[j] by {
                                if j < old_outv.len() {
                                    assert(out@[j] == before_push[j]);
                                }
                            }
                        }
                    } else {
                        proof {
                            assert(runs_here == Seq::<Seq<u32>>::empty() + chain_runs(chain@, folds, i + 1, Seq::empty()));
                            assert(runs_here =~= chain_runs(chain@, folds, i + 1, Seq::empty()));
                        }
                    }
                    cur = Vec::new();
                }
                i = i + 1;
            }
            let ghost tail = chain_runs(chain@, folds, i as int, cur@);
            proof {
                assert(tail == (if cur@.len() >= 2 { seq![cur@] } else { Seq::<Seq<u32>>::empty() }));
            }
            if cur.len() >= 2 {
                let ghost done = cur@;
                let ghost before_push = out@;
                out.push(cur);
                proof {
                    outv = outv.push(done);
                    assert forall|j: int| 0 <= j < out@.len() implies #[trigger] out@[j]@ == outv[j] by {
                        if j < before_push.len() {
                            assert(out@[j] == before_push[j]);
                        }
                    }
                }
            } else {
                proof {
                    assert(outv + tail =~= outv);
                }
            }
            proof {
                assert(crease_runs(cs, folds, c + 1) == crease_runs(cs, folds, c as int) + chain_runs(chain@, folds, 0, Seq::empty()));
            }
        } else {
            proof {
                assert(crease_runs(cs, folds, c + 1) =~= crease_runs(cs, folds, c as int));
            }
        }
        c = c + 1;
    }
    out
}

/// `run` has at least two vertices and each consecutive pair of them is a
/// fold edge.
pub open spec fn fold_run(run: Seq<u32>, folds: Set<(u32, u32)>) -> bool {
    &&& run.len() >= 2
    &&& forall|i: int| 0 <= i < run.len() - 1 ==> folds.contains(#[trigger] spec_normalise_edge(run[i], run[i + 1]))
}

proof fn lemma_chain_runs_follow_folds(chain: Seq<u32>, folds: Set<(u32, u32)>, i: int, cur: Seq<u32>)
    requires
        0 <= i,
        cur.len() == 0 || (fold_run(cur, folds) && i < chain.len() && cur.last() == chain[i]),
    ensures
        forall|j: int| 0 <= j < chain_runs(chain, folds, i, cur).len()
            ==> fold_run(#[trigger] chain_runs(chain, folds, i, cur)[j], folds),
    decreases chain.len() - i,
{
    if i + 1 >= chain.len() {
        if cur.len() >= 2 {
            assert(chain_runs(chain, folds, i, cur) == seq![cur]);
        } else {
            assert(chain_runs(chain, folds, i, cur) == Seq::<Seq<u32>>::empty());
        }
    } else if folds.contains(spec_normalise_edge(chain[i], chain[i + 1])) {
        let next = if cur.len() == 0 { seq![chain[i], chain[i + 1]] } else { cur.push(chain[i + 1]) };
        assert forall|k: int| 0 <= k < next.len() - 1 implies folds.contains(#[trigger] spec_normalise_edge(next[k], next[k + 1])) by {
            if cur.len() != 0 && k < cur.len() - 1 {
                assert(next[k] == cur[k] && next[k + 1] == cur[k + 1]);
            }
        }
        lemma_chain_runs_follow_folds(chain, folds, i + 1, next);
        assert(chain_runs(chain, folds, i, cur) == chain_runs(chain, folds, i + 1, next));
    } else {
        let head: Seq<Seq<u32>> = if cur.len() >= 2 { seq![cur] } else { Seq::empty() };
        let rest = chain_runs(chain, folds, i + 1, Seq::empty());
        lemma_chain_runs_follow_folds(chain, folds, i + 1, Seq::empty());
        assert(chain_runs(chain, folds, i, cur) == head + rest);
        assert forall|j: int| 0 <= j < (head + rest).len() implies fold_run(#[trigger] (head + rest)[j], folds) by {
            if j >= head.len() {
                assert((head + rest)[j] == rest[j - head.len()]);
            }
        }
    }
}

/// Every crease chain that `fold_chains` gives runs along fold edges: it
/// has at least two vertices and each consecutive pair is a fold edge.
pub proof fn lemma_crease_chains_follow_fold_edges(
    chains: Seq<(Seq<u32>, CreaseType)>,
    fold_edges: Seq<((u32, u32), CreaseType)>,
    m: int,
)
    requires
        0 <= m <= chains.len(),
    ensures
        forall|j: int| 0 <= j < crease_runs(chains, fold_keys(fold_edges), m).len()
            ==> fold_run(#[trigger] crease_runs(chains, fold_keys(fold_edges), m)[j], fold_keys(fold_edges)),
    decreases m,
{
    let folds = fold_keys(fold_edges);
    if m > 0 {
        lemma_crease_chains_follow_fold_edges(chains, fold_edges, m - 1);
        let prev = crease_runs(chains, folds, m - 1);
        let tail: Seq<Seq<u32>> = if chains[m - 1].1 == CreaseType::Boundary {
            Seq::empty()
        } else {
            chain_runs(chains[m - 1].0, folds, 0, Seq::empty())
        };
        lemma_chain_runs_follow_folds(chains[m - 1].0, folds, 0, Seq::empty());
        assert forall|j: int| 0 <= j < (prev + tail).len() implies fold_run(#[trigger] (prev + tail)[j], folds) by {
            if j >= prev.len() {
                assert((prev + tail)[j] == tail[j - prev.len()]);
            }
        }
    }
}

/// Some entry of `entries` has key `k`.
pub open spec fn has_fold_key(entries: Seq<((u32, u32), CreaseType)>, k: (u32, u32)) -> bool {
    exists|t: int| 0 <= t < entries.len() && #[trigger] entries[t].0 == k
}

/// The entries of `extra` whose key `base` lacks, in order.
pub open spec fn new_fold_entries(
    base: Seq<((u32, u32), CreaseType)>,
    extra: Seq<((u32, u32), CreaseType)>,
) -> Seq<((u32, u32), CreaseType)> {
    extra.filter(|e: ((u32, u32), CreaseType)| !has_fold_key(base, e.0))
}

/// Adds to the fold edges `base` the mesh edges found on crease lines
/// (`extra`) whose key is not there yet, keeping the type `base` gives a
/// key it has; also returns how many entries were added.
pub fn merge_fold_edges(
    base: &[((u32, u32), CreaseType)],
    extra: &[((u32, u32), CreaseType)],
) -> (r: (Vec<((u32, u32), CreaseType)>, usize))
    ensures
        r.0@ == base@ + new_fold_entries(base@, extra@),
        r.1 == new_fold_entries(base@, extra@).len(),
{
    let mut keys: HashSet<u64> = HashSet::new();
    let mut out: Vec<((u32, u32), CreaseType)> = Vec::new();
    let mut t: usize = 0;
    while t < base.len()
        invariant
            0 <= t <= base.len(),
            out@ == base@.take(t as int),
            forall|k: (u32, u32)| #[trigger] keys@.contains(pack_key(k))
                <==> exists|s: int| 0 <= s < t && #[trigger] base@[s].0 == k,
        decreases base.len() - t,
    {
        let e = base[t];
        keys.insert(pack(e.0));
        out.push(e);
        proof {
            assert(out@ == base@.take(t + 1));
            assert forall|k: (u32, u32)| #[trigger] keys@.contains(pack_key(k))
                <==> exists|s: int| 0 <= s < t + 1 && #[trigger] base@[s].0 == k by {
                lemma_pack_key_injective(k, e.0);
                if k == e.0 {
                    assert(base@[t as int].0 == k);
                }
            }
        }
        t = t + 1;
    }
    assert(out@ == base@);
    assert forall|k: (u32, u32)| #[trigger] keys@.contains(pack_key(k)) <==> has_fold_key(base@, k) by {
    }
    let ghost f = |e: ((u32, u32), CreaseType)| !has_fold_key(base@, e.0);
    let mut added: usize = 0;
    let mut i: usize = 0;
    while i < extra.len()
        invariant
            0 <= i <= extra.len(),
            f == (|e: ((u32, u32), CreaseType)| !has_fold_key(base@, e.0)),
            forall|k: (u32, u32)| #[trigger] keys@.contains(pack_key(k)) <==> has_fold_key(base@, k),
            out@ == base@ + extra@.take(i as int).filter(f),
            added == extra@.take(i as int).filter(f).len(),
        decreases extra.len() - i,
    {
        let e = extra[i];
        proof {
            assert(extra@.take(i + 1).drop_last() == extra@.take(i as int));
            reveal(Seq::filter);
        }
        if !keys.contains(&pack(e.0)) {
            out.push(e);
            added = added + 1;
            proof {
                assert(out@ =~= base@ + extra@.take(i + 1).filter(f));
            }
        } else {
            proof {
                assert(out@ =~= base@ + extra@.take(i + 1).filter(f));
            }
        }
        i = i + 1;
    }
    assert(extra@.take(extra@.len() as int) == extra@);
    (out, added)
}

/// The step from `chain[i]` to `chain[i + 1]` is a fold edge.
pub open spec fn step_folds(chain: Seq<u32>, folds: Set<(u32, u32)>, i: int) -> bool {
    folds.contains(spec_normalise_edge(chain[i], chain[i + 1]))
}

/// `run` is a maximal stretch of fold steps of `chain`: the vertices
/// `chain[a..=b]` for some `a < b`, with the step before `a` and the step
/// after `b`, where they exist, not fold edges.
pub open spec fn maximal_run_of(chain: Seq<u32>, folds: Set<(u32, u32)>, run: Seq<u32>) -> bool {
    exists|a: int, b: int| #![trigger chain.subrange(a, b + 1)]
        0 <= a < b < chain.len() && run == chain.subrange(a, b + 1)
            && (a == 0 || !step_folds(chain, folds, a - 1))
            && (b + 1 == chain.len() || !step_folds(chain, folds, b))
}

/// Fold step `s` of `chain` lies inside one of `runs`.
pub open spec fn step_in_runs(chain: Seq<u32>, runs: Seq<Seq<u32>>, s: int) -> bool {
    exists|j: int, a: int, b: int| #![trigger runs[j], chain.subrange(a, b + 1)]
        0 <= j < runs.len() && 0 <= a <= s < b < chain.len() && runs[j] == chain.subrange(a, b + 1)
}

proof fn lemma_runs_exact(chain: Seq<u32>, folds: Set<(u32, u32)>, i: int, a: int, cur: Seq<u32>)
    requires
        0 <= a <= i,
        i < chain.len() || cur.len() == 0,
        cur.len() == 0 ==> a == i,
        cur.len() > 0 ==> a < i < chain.len() && cur == chain.subrange(a, i + 1),
        a == 0 || !step_folds(chain, folds, a - 1),
        forall|s: int| a <= s < i ==> #[trigger] step_folds(chain, folds, s),
    ensures
        forall|j: int| 0 <= j < chain_runs(chain, folds, i, cur).len()
            ==> maximal_run_of(chain, folds, #[trigger] chain_runs(chain, folds, i, cur)[j]),
        forall|s: int| a <= s < chain.len() - 1 && #[trigger] step_folds(chain, folds, s)
            ==> step_in_runs(chain, chain_runs(chain, folds, i, cur), s),
    decreases chain.len() - i,
{
    let r = chain_runs(chain, folds, i, cur);
    if i + 1 >= chain.len() {
        if cur.len() >= 2 {
            assert(r == seq![cur]);
            assert(maximal_run_of(chain, folds, cur)) by {
                assert(chain.subrange(a, i + 1) == cur);
            }
            assert forall|s: int| a <= s < chain.len() - 1 && #[trigger] step_folds(chain, folds, s)
                implies step_in_runs(chain, r, s) by {
                assert(r[0] == chain.subrange(a, i + 1));
            }
        } else {
            assert(r == Seq::<Seq<u32>>::empty());
        }
    } else if step_folds(chain, folds, i) {
        let next = if cur.len() == 0 { seq![chain[i], chain[i + 1]] } else { cur.push(chain[i + 1]) };
        assert(next =~= chain.subrange(a, i + 2));
        assert(r == chain_runs(chain, folds, i + 1, next));
        lemma_runs_exact(chain, folds, i + 1, a, next);
    } else {
        let head: Seq<Seq<u32>> = if cur.len() >= 2 { seq![cur] } else { Seq::empty() };
        let rest = chain_runs(chain, folds, i + 1, Seq::empty());
        assert(r == head + rest);
        lemma_runs_exact(chain, folds, i + 1, i + 1, Seq::empty());
        if cur.len() > 0 {
            assert(maximal_run_of(chain, folds, cur)) by {
                assert(chain.subrange(a, i + 1) == cur);
            }
        }
        assert forall|j: int| 0 <= j < r.len() implies maximal_run_of(chain, folds, #[trigger] r[j]) by {
            if j < head.len() {
                assert(r[j] == cur);
            } else {
                assert(r[j] == rest[j - head.len()]);
            }
        }
        assert forall|s: int| a <= s < chain.len() - 1 && #[trigger] step_folds(chain, folds, s)
            implies step_in_runs(chain, r, s) by {
            if s < i {
                assert(r[0] == chain.subrange(a, i + 1));
            } else {
                assert(s > i);
                let (j, a2, b2) = choose|j: int, a2: int, b2: int| #![trigger rest[j], chain.subrange(a2, b2 + 1)]
                    0 <= j < rest.len() && 0 <= a2 <= s < b2 < chain.len() && rest[j] == chain.subrange(a2, b2 + 1);
                assert(r[j + head.len()] == rest[j]);
            }
        }
    }
}

/// The runs of a chain are exactly its maximal stretches of fold steps:
/// each run is a stretch `chain[a..=b]` that cannot be extended by a fold
/// step at either end, and every fold step of the chain lies in a run.
pub proof fn lemma_chain_runs_are_maximal_stretches(chain: Seq<u32>, folds: Set<(u32, u32)>)
    ensures
        forall|j: int| 0 <= j < chain_runs(chain, folds, 0, Seq::empty()).len()
            ==> maximal_run_of(chain, folds, #[trigger] chain_runs(chain, folds, 0, Seq::empty())[j]),
        forall|s: int| 0 <= s < chain.len() - 1 && #[trigger] step_folds(chain, folds, s)
            ==> step_in_runs(chain, chain_runs(chain, folds, 0, Seq::empty()), s),
{
    lemma_runs_exact(chain, folds, 0, 0, Seq::empty());
}

/// `run` is a maximal stretch of fold steps of one of the first `m` chains
/// that is a mountain or valley chain.
pub open spec fn stretch_of_fold_chain(
    chains: Seq<(Seq<u32>, CreaseType)>,
    folds: Set<(u32, u32)>,
    m: int,
    run: Seq<u32>,
) -> bool {
    exists|c: int| 0 <= c < m && chains[c].1 != CreaseType::Boundary && #[trigger] maximal_run_of(chains[c].0, folds, run)
}

/// The crease chains of the first `m` vertex chains are the maximal
/// stretches of fold steps of the mountain and valley chains: each comes from
/// one such chain, and every fold step of such a chain lies in one of them.
pub proof fn lemma_crease_chains_are_maximal_stretches(
    chains: Seq<(Seq<u32>, CreaseType)>,
    fold_edges: Seq<((u32, u32), CreaseType)>,
    m: int,
)
    requires
        0 <= m <= chains.len(),
    ensures
        forall|j: int| 0 <= j < crease_runs(chains, fold_keys(fold_edges), m).len()
            ==> stretch_of_fold_chain(chains, fold_keys(fold_edges), m, #[trigger] crease_runs(chains, fold_keys(fold_edges), m)[j]),
        forall|c: int, s: int| 0 <= c < m && chains[c].1 != CreaseType::Boundary && 0 <= s < chains[c].0.len() - 1
            && #[trigger] step_folds(chains[c].0, fold_keys(fold_edges), s)
            ==> step_in_runs(chains[c].0, crease_runs(chains, fold_keys(fold_edges), m), s),
    decreases m,
{
    let folds = fold_keys(fold_edges);
    let r = crease_runs(chains, folds, m);
    if m > 0 {
        lemma_crease_chains_are_maximal_stretches(chains, fold_edges, m - 1);
        let prev = crease_runs(chains, folds, m - 1);
        let ch = chains[m - 1].0;
        let tail: Seq<Seq<u32>> = if chains[m - 1].1 == CreaseType::Boundary {
            Seq::empty()
        } else {
            chain_runs(ch, folds, 0, Seq::empty())
        };
        assert(r == prev + tail);
        lemma_chain_runs_are_maximal_stretches(ch, folds);
        assert forall|j: int| 0 <= j < r.len() implies stretch_of_fold_chain(chains, folds, m, #[trigger] r[j]) by {
            if j < prev.len() {
                assert(r[j] == prev[j]);
                assert(stretch_of_fold_chain(chains, folds, m - 1, prev[j]));
                let c = choose|c: int| 0 <= c < m - 1 && chains[c].1 != CreaseType::Boundary
                    && #[trigger] maximal_run_of(chains[c].0, folds, prev[j]);
                assert(maximal_run_of(chains[c].0, folds, r[j]));
            } else {
                assert(chains[m - 1].1 != CreaseType::Boundary);
                assert(tail == chain_runs(ch, folds, 0, Seq::empty()));
                assert(r[j] == tail[j - prev.len()]);
                assert(maximal_run_of(ch, folds, chain_runs(ch, folds, 0, Seq::empty())[j - prev.len()]));
                assert(maximal_run_of(chains[m - 1].0, folds, r[j]));
            }
        }
        assert forall|c: int, s: int| 0 <= c < m && chains[c].1 != CreaseType::Boundary && 0 <= s < chains[c].0.len() - 1
            && #[trigger] step_folds(chains[c].0, folds, s) implies step_in_runs(chains[c].0, r, s) by {
            let chc = chains[c].0;
            if c < m - 1 {
                assert(step_in_runs(chc, prev, s));
                let (j, a, b) = choose|j: int, a: int, b: int| #![trigger prev[j], chc.subrange(a, b + 1)]
                    0 <= j < prev.len() && 0 <= a <= s < b < chc.len() && prev[j] == chc.subrange(a, b + 1);
                assert(r[j] == prev[j]);
            } else {
                assert(step_in_runs(ch, tail, s));
                let (j, a, b) = choose|j: int, a: int, b: int| #![trigger tail[j], ch.subrange(a, b + 1)]
                    0 <= j < tail.len() && 0 <= a <= s < b < ch.len() && tail[j] == ch.subrange(a, b + 1);
                assert(r[j + prev.len()] == tail[j]);
            }
        }
    } else {
        assert(r =~= Seq::<Seq<u32>>::empty());
    }
}

} // verus!
