//! The layout of a Wavefront OBJ text: which lines are vertices (with their
//! components as written) and the triangles of the faces, fanned out from
//! each face's first corner. Normals, texture coordinates, groups,
//! materials and comments are passed over. Reading the vertex components as
//! numbers is left to the caller.

use vstd::prelude::*;

use crate::sim::tokens::{
    chars_of, int_error_text, int_parse, lemma_split_lines_nonempty, lemma_split_words_nonempty,
    parse_int, seqs, split_lines, split_words, words_of, IntError,
};
use crate::text::{push_decimal, spec_decimal};

verus! {

/// Why an OBJ text has no mesh, as far as its layout tells.
#[derive(Debug, Clone, Copy, PartialEq, Eq, Structural)]
pub enum ObjError {
    /// A face corner on line `line` is no integer.
    BadIndex { line: usize, kind: IntError },
    /// A face corner on line `line` names no vertex read so far.
    IndexOutOfRange { line: usize },
    /// The text has no vertex line.
    NoVertices,
    /// The text has no face.
    NoFaces,
}

/// The error in words: `line N: ...` for a bad corner.
pub open spec fn obj_error_text(e: ObjError) -> Seq<char> {
    match e {
        ObjError::BadIndex { line, kind } => "line "@ + spec_decimal(line as nat) + ": "@ + int_error_text(kind),
        ObjError::IndexOutOfRange { line } => "line "@ + spec_decimal(line as nat) + ": face index out of range"@,
        ObjError::NoVertices => "OBJ has no vertices"@,
        ObjError::NoFaces => "OBJ has no faces"@,
    }
}

impl ObjError {
    /// The error in words.
    pub fn message(&self) -> (r: String)
        ensures
            r@ == obj_error_text(*self),
    {
        match self {
            ObjError::BadIndex { line, kind } => {
                let mut out = String::from_str("line ");
                push_decimal(&mut out, *line);
                out.append(": ");
                out.append(kind.message());
                out
            },
            ObjError::IndexOutOfRange { line } => {
                let mut out = String::from_str("line ");
                push_decimal(&mut out, *line);
                out.append(": face index out of range");
                out
            },
            ObjError::NoVertices => String::from_str("OBJ has no vertices"),
            ObjError::NoFaces => String::from_str("OBJ has no faces"),
        }
    }
}

/// What reading an OBJ text gives, as far as the layout goes.
pub struct ObjAcc {
    /// Line number (from 1) and the first three components of each vertex line.
    pub vertices: Seq<(nat, Seq<Seq<char>>)>,
    pub faces: Seq<[u32; 3]>,
    pub error: Option<ObjError>,
}

/// The part of a face corner before its first `/` (texture and normal
/// indices follow it).
pub open spec fn before_slash(t: Seq<char>) -> Seq<char>
    decreases t.len(),
{
    if t.len() == 0 || t[0] == '/' {
        Seq::empty()
    } else {
        seq![t[0]] + before_slash(t.drop_first())
    }
}

/// The vertex index that corner `t` names when `n` vertices have been read:
/// `k > 0` is the `k`-th vertex, `k <= 0` counts back from the last one.
pub open spec fn resolve_corner(t: Seq<char>, n: int, line: nat) -> Result<u32, ObjError> {
    match int_parse(before_slash(t), true, i64::MIN as int, i64::MAX as int) {
        Err(kind) => Err(ObjError::BadIndex { line: line as usize, kind }),
        Ok(k) => {
            let r = if k > 0 { k - 1 } else { n + k };
            if r < 0 || r >= n {
                Err(ObjError::IndexOutOfRange { line: line as usize })
            } else {
                Ok(r as u32)
            }
        },
    }
}

/// The corners of a face in order, or the error of the first that does not
/// resolve.
pub open spec fn resolve_corners(toks: Seq<Seq<char>>, n: int, line: nat) -> Result<Seq<u32>, ObjError>
    decreases toks.len(),
{
    if toks.len() == 0 {
        Ok(Seq::empty())
    } else {
        match resolve_corners(toks.drop_last(), n, line) {
            Err(e) => Err(e),
            Ok(rs) => match resolve_corner(toks.last(), n, line) {
                Err(e) => Err(e),
                Ok(r) => Ok(rs.push(r)),
            },
        }
    }
}

/// The triangles of the fan over corners `rs`: `[rs[0], rs[k], rs[k + 1]]`.
pub open spec fn fan(rs: Seq<u32>) -> Seq<[u32; 3]> {
    Seq::new((rs.len() - 2) as nat, |k: int| [rs[0], rs[k + 1], rs[k + 2]])
}

/// One line, of words `ws` and number `line`, read into `acc`.
pub open spec fn obj_line(acc: ObjAcc, line: nat, ws: Seq<Seq<char>>) -> ObjAcc {
    if ws.len() == 0 || ws[0][0] == '#' {
        acc
    } else if ws[0] == seq!['v'] {
        ObjAcc { vertices: acc.vertices.push((line, ws.subrange(1, if ws.len() < 4 { ws.len() as int } else { 4 }))), ..acc }
    } else if ws[0] == seq!['f'] && ws.len() >= 4 {
        match resolve_corners(ws.drop_first(), acc.vertices.len() as int, line) {
            Ok(rs) => ObjAcc { faces: acc.faces + fan(rs), ..acc },
            Err(e) => ObjAcc { error: Some(e), ..acc },
        }
    } else {
        acc
    }
}

/// The first `m` lines read in order, stopping at the first error.
pub open spec fn obj_scan(lines: Seq<Seq<char>>, m: int) -> ObjAcc
    decreases m,
{
    if m <= 0 {
        ObjAcc { vertices: Seq::empty(), faces: Seq::empty(), error: None }
    } else {
        let a = obj_scan(lines, m - 1);
        if a.error is Some {
            a
        } else {
            obj_line(a, m as nat, split_words(lines[m - 1]))
        }
    }
}

/// The layout of OBJ text `text`.
pub open spec fn obj_layout(text: Seq<char>) -> ObjAcc {
    let lines = split_lines(text);
    let a = obj_scan(lines, lines.len() as int);
    if a.error is Some {
        a
    } else if a.vertices.len() == 0 {
        ObjAcc { error: Some(ObjError::NoVertices), ..a }
    } else if a.faces.len() == 0 {
        ObjAcc { error: Some(ObjError::NoFaces), ..a }
    } else {
        a
    }
}

/// The layout of an OBJ text: vertex lines (line number and components as
/// written), triangles, and the error that stopped the reading, if any.
pub struct ObjLayout {
    pub vertex_lines: Vec<(usize, Vec<Vec<char>>)>,
    pub faces: Vec<[u32; 3]>,
    pub error: Option<ObjError>,
}

impl ObjLayout {
    pub open spec fn acc(&self) -> ObjAcc {
        ObjAcc {
            vertices: self.vertex_lines@.map_values(|v: (usize, Vec<Vec<char>>)| (v.0 as nat, seqs(v.1@))),
            faces: self.faces@,
            error: self.error,
        }
    }
}

proof fn lemma_scan_prefix(a: Seq<Seq<char>>, b: Seq<Seq<char>>, m: int)
    requires
        0 <= m <= a.len(),
        m <= b.len(),
        a.take(m) == b.take(m),
    ensures
        obj_scan(a, m) == obj_scan(b, m),
    decreases m,
{
    if m > 0 {
        assert(a.take(m - 1) == b.take(m - 1)) by {
            assert(a.take(m - 1) == a.take(m).take(m - 1));
            assert(b.take(m - 1) == b.take(m).take(m - 1));
        }
        assert(a[m - 1] == a.take(m)[m - 1]);
        assert(b[m - 1] == b.take(m)[m - 1]);
        lemma_scan_prefix(a, b, m - 1);
    }
}

proof fn lemma_u32_cast_below(r: int, n: int)
    requires
        0 <= r < n <= u64::MAX,
    ensures
        (r as u32) < n,
{
    let r64 = r as u64;
    assert(r64 == r);
    assert((r64 as u32) as u64 <= r64) by (bit_vector);
}

proof fn lemma_corners_below(toks: Seq<Seq<char>>, n: int, line: nat)
    requires
        n <= u64::MAX,
        resolve_corners(toks, n, line) is Ok,
    ensures
        forall|k: int| 0 <= k < resolve_corners(toks, n, line)->Ok_0.len()
            ==> (#[trigger] resolve_corners(toks, n, line)->Ok_0[k]) < n,
    decreases toks.len(),
{
    if toks.len() > 0 {
        lemma_corners_below(toks.drop_last(), n, line);
        let t = toks.last();
        match int_parse(before_slash(t), true, i64::MIN as int, i64::MAX as int) {
            Ok(k) => {
                let r = if k > 0 { k - 1 } else { n + k };
                if 0 <= r < n {
                    lemma_u32_cast_below(r, n);
                }
            },
            Err(_) => {},
        }
    }
}

proof fn lemma_scan_faces_in_range(lines: Seq<Seq<char>>, m: int)
    requires
        0 <= m <= u64::MAX,
    ensures
        obj_scan(lines, m).vertices.len() <= m,
        forall|t: int, k: int| 0 <= t < obj_scan(lines, m).faces.len() && 0 <= k < 3
            ==> #[trigger] obj_scan(lines, m).faces[t][k] < obj_scan(lines, m).vertices.len(),
    decreases m,
{
    if m > 0 {
        lemma_scan_faces_in_range(lines, m - 1);
        let a = obj_scan(lines, m - 1);
        if a.error is None {
            let ws = split_words(lines[m - 1]);
            if ws.len() > 0 && ws[0][0] != '#' && ws[0] != seq!['v'] && ws[0] == seq!['f'] && ws.len() >= 4 {
                let n = a.vertices.len() as int;
                if resolve_corners(ws.drop_first(), n, m as nat) is Ok {
                    let rs = resolve_corners(ws.drop_first(), n, m as nat)->Ok_0;
                    lemma_corners_below(ws.drop_first(), n, m as nat);
                    lemma_corners_len(ws.drop_first(), n, m as nat);
                    let b = obj_scan(lines, m);
                    assert(b.faces == a.faces + fan(rs));
                    assert forall|t: int, k: int| 0 <= t < b.faces.len() && 0 <= k < 3
                        implies #[trigger] b.faces[t][k] < b.vertices.len() by {
                        if t >= a.faces.len() {
                            let j = t - a.faces.len();
                            assert(b.faces[t] == [rs[0], rs[j + 1], rs[j + 2]]);
                            assert(rs[0] < n);
                            assert(rs[j + 1] < n);
                            assert(rs[j + 2] < n);
                        } else {
                            assert(b.faces[t] == a.faces[t]);
                        }
                    }
                }
            }
        }
    }
}

proof fn lemma_split_lines_len(s: Seq<char>)
    ensures
        split_lines(s).len() <= s.len() + 1,
    decreases s.len(),
{
    if s.len() > 0 {
        lemma_split_lines_len(s.drop_last());
        lemma_split_lines_nonempty(s.drop_last());
    }
}

proof fn lemma_resolve_corners_len(toks: Seq<Seq<char>>, n: int, line: nat)
    ensures
        resolve_corners(toks, n, line) is Ok ==> resolve_corners(toks, n, line)->Ok_0.len() == toks.len(),
    decreases toks.len(),
{
    if toks.len() > 0 {
        lemma_resolve_corners_len(toks.drop_last(), n, line);
    }
}

/// A face line whose corners all resolve adds two triangles fewer than it
/// has corners (a polygon of `c` corners gives `c - 2` triangles), after the
/// triangles read before it; each new triangle uses the face's
/// corners only, and every corner of the face is used by one of them.
pub proof fn lemma_face_line_triangulates_the_polygon(acc: ObjAcc, line: nat, ws: Seq<Seq<char>>)
    requires
        ws.len() >= 4,
        ws[0] == seq!['f'],
        resolve_corners(ws.drop_first(), acc.vertices.len() as int, line) is Ok,
    ensures
        ({
            let rs = resolve_corners(ws.drop_first(), acc.vertices.len() as int, line)->Ok_0;
            let after = obj_line(acc, line, ws);
            &&& after.error == acc.error
            &&& after.vertices == acc.vertices
            &&& after.faces.len() == acc.faces.len() + (ws.len() - 1) - 2
            &&& after.faces.subrange(0, acc.faces.len() as int) == acc.faces
            &&& forall|t: int, k: int| acc.faces.len() <= t < after.faces.len() && 0 <= k < 3
                ==> #[trigger] rs.contains(after.faces[t][k])
            &&& forall|j: int| #![trigger rs[j]] 0 <= j < rs.len() ==> exists|t: int, k: int|
                acc.faces.len() <= t < after.faces.len() && 0 <= k < 3 && #[trigger] after.faces[t][k] == rs[j]
        }),
{
    let toks = ws.drop_first();
    let rs = resolve_corners(toks, acc.vertices.len() as int, line)->Ok_0;
    lemma_resolve_corners_len(toks, acc.vertices.len() as int, line);
    assert(ws[0][0] == 'f');
    let after = obj_line(acc, line, ws);
    let base = acc.faces.len() as int;
    assert(after.faces == acc.faces + fan(rs));
    assert(after.faces.subrange(0, base) =~= acc.faces);
    assert forall|t: int, k: int| base <= t < after.faces.len() && 0 <= k < 3 implies #[trigger] rs.contains(after.faces[t][k]) by {
        let q = t - base;
        assert(after.faces[t] == fan(rs)[q]);
        if k == 0 {
            assert(rs[0] == after.faces[t][k]);
        } else if k == 1 {
            assert(rs[q + 1] == after.faces[t][k]);
        } else {
            assert(rs[q + 2] == after.faces[t][k]);
        }
    }
    assert forall|j: int| #![trigger rs[j]] 0 <= j < rs.len() implies exists|t: int, k: int|
        base <= t < after.faces.len() && 0 <= k < 3 && #[trigger] after.faces[t][k] == rs[j] by {
        if j == 0 {
            assert(after.faces[base][0] == rs[j]);
        } else if j == 1 {
            assert(after.faces[base][1] == rs[j]);
        } else {
            assert(after.faces[base + j - 2] == fan(rs)[j - 2]);
            assert(after.faces[base + j - 2][2] == rs[j]);
        }
    }
}

/// Every triangle corner of a layout names a vertex line: it is below the
/// number of vertices read.
pub proof fn lemma_obj_corners_name_vertices(text: Seq<char>)
    requires
        text.len() <= isize::MAX,
    ensures
        forall|t: int, k: int| 0 <= t < obj_layout(text).faces.len() && 0 <= k < 3
            ==> #[trigger] obj_layout(text).faces[t][k] < obj_layout(text).vertices.len(),
{
    let lines = split_lines(text);
    lemma_split_lines_len(text);
    lemma_scan_faces_in_range(lines, lines.len() as int);
}

/// Length of the part of `t` before its first `/`.
fn slash_end(t: &Vec<char>) -> (p: usize)
    ensures
        p <= t.len(),
        before_slash(t@) == t@.take(p as int),
{
    let mut p: usize = 0;
    assert(t@.skip(0) == t@);
    assert(t@.take(0) + before_slash(t@) == before_slash(t@));
    while p < t.len() && t[p] != '/'
        invariant
            0 <= p <= t.len(),
            before_slash(t@) == t@.take(p as int) + before_slash(t@.skip(p as int)),
        decreases t.len() - p,
    {
        let ghost rest = t@.skip(p as int);
        assert(rest.drop_first() == t@.skip(p + 1));
        assert(t@.take(p + 1) == t@.take(p as int) + seq![rest[0]]);
        p = p + 1;
    }
    proof {
        let rest = t@.skip(p as int);
        if p < t.len() {
            assert(rest[0] == t@[p as int]);
        } else {
            assert(rest.len() == 0);
        }
        assert(before_slash(rest) == Seq::<char>::empty());
        assert(t@.take(p as int) + Seq::<char>::empty() == t@.take(p as int));
    }
    p
}

/// Resolves face corner `t` when `n` vertices have been read.
fn resolve(t: &Vec<char>, n: usize, line: usize) -> (r: Result<u32, ObjError>)
    requires
        n <= i64::MAX,
    ensures
        r == resolve_corner(t@, n as int, line as nat),
{
    let p = slash_end(t);
    match parse_int(t.as_slice(), p, true, i64::MIN, i64::MAX) {
        Err(kind) => Err(ObjError::BadIndex { line, kind }),
        Ok(k) => {
            let nn = n as i64;
            let r: i64 = if k > 0 { k - 1 } else { nn + k };
            if r < 0 || r >= nn {
                Err(ObjError::IndexOutOfRange { line })
            } else {
                Ok(r as u32)
            }
        },
    }
}

/// Reads one line (its characters `chars`, its number `line`) into `acc`.
fn read_line(acc: &mut ObjLayout, line: usize, chars: &Vec<char>)
    requires
        old(acc).error is None,
        old(acc).vertex_lines.len() <= i64::MAX,
    ensures
        final(acc).acc() == obj_line(old(acc).acc(), line as nat, split_words(chars@)),
        final(acc).vertex_lines.len() <= old(acc).vertex_lines.len() + 1,
{
    let ws = words_of(chars);
    let ghost w = seqs(ws@);
    proof {
        lemma_split_words_nonempty(chars@);
    }
    if ws.len() == 0 {
        return;
    }
    assert(w[0] == ws[0]@);
    if ws[0][0] == '#' {
        return;
    }
    let is_v = ws[0].len() == 1 && ws[0][0] == 'v';
    let is_f = ws[0].len() == 1 && ws[0][0] == 'f';
    assert(is_v == (w[0] == seq!['v'])) by {
        if ws[0].len() == 1 {
            assert(w[0] =~= seq![ws[0]@[0]]);
        }
    }
    assert(is_f == (w[0] == seq!['f'])) by {
        if ws[0].len() == 1 {
            assert(w[0] =~= seq![ws[0]@[0]]);
        }
    }
    if is_v {
        let ghost keep = if w.len() < 4 { w.len() as int } else { 4 };
        let mut comps = ws;
        comps.truncate(4);
        comps.remove(0);
        assert(seqs(comps@) =~= w.subrange(1, keep));
        let ghost before = acc.acc().vertices;
        acc.vertex_lines.push((line, comps));
        assert(acc.acc().vertices =~= before.push((line as nat, w.subrange(1, keep))));
    } else if is_f && ws.len() >= 4 {
        let n = acc.vertex_lines.len();
        let ghost toks = w.drop_first();
        let ghost start = acc.acc();
        let ghost words = split_words(chars@);
        assert(words == w);
        let mut rs: Vec<u32> = Vec::new();
        let mut k: usize = 1;
        while k < ws.len()
            invariant
                1 <= k <= ws.len(),
                w == seqs(ws@),
                w == words,
                words == split_words(chars@),
                w.len() >= 4,
                w[0] == seq!['f'],
                w[0][0] != '#',
                toks == w.drop_first(),
                n == acc.vertex_lines.len(),
                n <= i64::MAX,
                acc.acc() == start,
                start == old(acc).acc(),
                acc.vertex_lines.len() == old(acc).vertex_lines.len(),
                acc.error is None,
                resolve_corners(toks.take(k - 1), n as int, line as nat) == Ok::<Seq<u32>, ObjError>(rs@),
            decreases ws.len() - k,
        {
            assert(toks.take(k as int).drop_last() == toks.take(k - 1));
            assert(toks.take(k as int).last() == ws[k as int]@);
            match resolve(&ws[k], n, line) {
                Err(e) => {
                    proof {
                        assert(resolve_corners(toks.take(k as int), n as int, line as nat) == Err::<Seq<u32>, ObjError>(e));
                        lemma_corners_error_sticks(toks, k as int, n as int, line as nat);
                    }
                    let ghost before = acc.acc();
                    acc.error = Some(e);
                    assert(acc.acc() == ObjAcc { error: Some(e), ..before });
                    return;
                },
                Ok(r) => {
                    rs.push(r);
                },
            }
            k = k + 1;
        }
        assert(toks.take(toks.len() as int) == toks);
        proof {
            lemma_corners_len(toks, n as int, line as nat);
        }
        let ghost before = acc.faces@;
        let ghost before_acc = acc.acc();
        let ghost before_acc_lines = acc.vertex_lines;
        let mut j: usize = 1;
        while j + 1 < rs.len()
            invariant
                1 <= j < rs.len(),
                rs.len() >= 3,
                acc.faces@ == before + fan(rs@).take(j - 1),
                acc.vertex_lines == before_acc_lines,
                acc.error == before_acc.error,
                before_acc.faces == before,
            decreases rs.len() - j,
        {
            acc.faces.push([rs[0], rs[j], rs[j + 1]]);
            assert(fan(rs@).take(j as int) == fan(rs@).take(j - 1).push([rs@[0], rs@[j as int], rs@[j + 1]]));
            j = j + 1;
        }
        assert(fan(rs@).take(j - 1) == fan(rs@));
        assert(acc.acc() == ObjAcc { faces: before_acc.faces + fan(rs@), ..before_acc });
    }
}

proof fn lemma_corners_len(toks: Seq<Seq<char>>, n: int, line: nat)
    requires
        resolve_corners(toks, n, line) is Ok,
    ensures
        resolve_corners(toks, n, line)->Ok_0.len() == toks.len(),
    decreases toks.len(),
{
    if toks.len() > 0 {
        lemma_corners_len(toks.drop_last(), n, line);
    }
}

proof fn lemma_corners_error_sticks(toks: Seq<Seq<char>>, m: int, n: int, line: nat)
    requires
        0 <= m <= toks.len(),
        resolve_corners(toks.take(m), n, line) is Err,
    ensures
        resolve_corners(toks, n, line) == resolve_corners(toks.take(m), n, line),
    decreases toks.len() - m,
{
    if m < toks.len() {
        assert(toks.take(m + 1).drop_last() == toks.take(m));
        lemma_corners_error_sticks(toks, m + 1, n, line);
    } else {
        assert(toks.take(m) == toks);
    }
}

/// Reads the layout of OBJ text `text`: lines are numbered from 1, split
/// at white space; `v` lines are vertices, `f` lines with at least three
/// corners are faces whose corners (`k`, `k/t`, `k/t/n` or `k//n`, negative
/// `k` counting back from the last vertex read) are resolved against the
/// vertices read so far and fanned into triangles; everything else is
/// passed over. Reading stops at the first bad corner; a text without
/// vertices or faces is refused.
pub fn parse_obj_layout(text: &str) -> (r: ObjLayout)
    requires
        text@.len() <= isize::MAX,
    ensures
        r.acc() == obj_layout(text@),
{
    let chars = chars_of(text);
    let mut acc = ObjLayout { vertex_lines: Vec::new(), faces: Vec::new(), error: None };
    assert(acc.acc().vertices =~= Seq::empty());
    assert(acc.acc().faces =~= Seq::empty());
    assert(acc.acc() == ObjAcc { vertices: Seq::empty(), faces: Seq::empty(), error: None });
    let mut cur: Vec<char> = Vec::new();
    let mut line: usize = 1;
    let mut i: usize = 0;
    proof {
        lemma_split_lines_nonempty(chars@.take(0));
        assert(chars@.take(0) =~= Seq::<char>::empty());
    }
    while i < chars.len()
        invariant
            chars@ == text@,
            0 <= i <= chars.len(),
            split_lines(chars@.take(i as int)).len() == line as int,
            cur@ == split_lines(chars@.take(i as int)).last(),
            acc.acc() == obj_scan(split_lines(chars@.take(i as int)), line - 1),
            1 <= line <= i + 1,
            acc.vertex_lines.len() < line,
            chars.len() <= isize::MAX,
        decreases chars.len() - i,
    {
        let c = chars[i];
        let ghost ls = split_lines(chars@.take(i as int));
        let ghost ls2 = split_lines(chars@.take(i + 1));
        assert(chars@.take(i + 1).drop_last() == chars@.take(i as int));
        assert(chars@.take(i + 1).last() == c);
        proof {
            lemma_split_lines_nonempty(chars@.take(i as int));
        }
        if c == '\n' {
            assert(ls2 == ls.push(Seq::empty()));
            proof {
                assert(ls.take(line - 1) =~= ls2.take(line - 1));
                lemma_scan_prefix(ls, ls2, line - 1);
            }
            if acc.error.is_none() {
                read_line(&mut acc, line, &cur);
            }
            proof {
                assert(ls2[line - 1] == cur@);
                assert(obj_scan(ls2, line as int) == (if obj_scan(ls2, line - 1).error is Some { obj_scan(ls2, line - 1) } else {
                    obj_line(obj_scan(ls2, line - 1), line as nat, split_words(ls2[line - 1])) }));
            }
            cur = Vec::new();
            line = line + 1;
        } else {
            assert(ls2 == ls.update(ls.len() - 1, ls.last().push(c)));
            proof {
                assert(ls.take(line - 1) =~= ls2.take(line - 1));
                lemma_scan_prefix(ls, ls2, line - 1);
            }
            cur.push(c);
        }
        i = i + 1;
    }
    assert(chars@.take(chars@.len() as int) == chars@);
    let ghost ls = split_lines(text@);
    if acc.error.is_none() {
        read_line(&mut acc, line, &cur);
    }
    assert(obj_scan(ls, line as int) == (if obj_scan(ls, line - 1).error is Some { obj_scan(ls, line - 1) } else {
        obj_line(obj_scan(ls, line - 1), line as nat, split_words(ls[line - 1])) }));
    if acc.error.is_none() {
        if acc.vertex_lines.len() == 0 {
            acc.error = Some(ObjError::NoVertices);
        } else if acc.faces.len() == 0 {
            acc.error = Some(ObjError::NoFaces);
        }
    }
    acc
}

} // verus!
