//! Lines, whitespace-separated words and decimal integers of the plain-text
//! mesh and crease-pattern formats.

use vstd::prelude::*;

verus! {

/// White space as `char::is_whitespace` knows it (the Unicode `White_Space`
/// property), which is what trimming and splitting on white space use.
pub open spec fn is_space(c: char) -> bool {
    let u = c as u32;
    ||| 9 <= u <= 13
    ||| u == 32 || u == 0x85 || u == 0xa0 || u == 0x1680
    ||| 0x2000 <= u <= 0x200a
    ||| u == 0x2028 || u == 0x2029 || u == 0x202f || u == 0x205f || u == 0x3000
}

/// Whether `c` is white space.
pub fn space(c: char) -> (r: bool)
    ensures
        r == is_space(c),
{
    let u = c as u32;
    (9 <= u && u <= 13) || u == 32 || u == 0x85 || u == 0xa0 || u == 0x1680 || (0x2000 <= u && u <= 0x200a)
        || u == 0x2028 || u == 0x2029 || u == 0x202f || u == 0x205f || u == 0x3000
}

/// The text between line feeds, in order: `s` split at every `'\n'` (a text
/// ending in a line feed ends with an empty line).
pub open spec fn split_lines(s: Seq<char>) -> Seq<Seq<char>>
    decreases s.len(),
{
    if s.len() == 0 {
        seq![Seq::empty()]
    } else {
        let p = split_lines(s.drop_last());
        if s.last() == '\n' {
            p.push(Seq::empty())
        } else {
            p.update(p.len() - 1, p.last().push(s.last()))
        }
    }
}

pub proof fn lemma_split_lines_nonempty(s: Seq<char>)
    ensures
        split_lines(s).len() >= 1,
    decreases s.len(),
{
    if s.len() > 0 {
        lemma_split_lines_nonempty(s.drop_last());
    }
}

/// The words of `l` read so far, and whether the last of them is still open
/// (the last character read was no white space).
pub open spec fn words_state(l: Seq<char>) -> (Seq<Seq<char>>, bool)
    decreases l.len(),
{
    if l.len() == 0 {
        (Seq::empty(), false)
    } else {
        let (w, open) = words_state(l.drop_last());
        let c = l.last();
        if is_space(c) {
            (w, false)
        } else if open && w.len() > 0 {
            (w.update(w.len() - 1, w.last().push(c)), true)
        } else {
            (w.push(seq![c]), true)
        }
    }
}

/// The maximal runs of non-white-space characters of `l`, in order.
pub open spec fn split_words(l: Seq<char>) -> Seq<Seq<char>> {
    words_state(l).0
}

/// Views of a list of character vectors.
pub open spec fn seqs(v: Seq<Vec<char>>) -> Seq<Seq<char>> {
    v.map_values(|w: Vec<char>| w@)
}

proof fn lemma_words_nonempty(l: Seq<char>)
    ensures
        words_state(l).1 ==> words_state(l).0.len() > 0,
        forall|i: int| 0 <= i < words_state(l).0.len() ==> #[trigger] words_state(l).0[i].len() > 0,
    decreases l.len(),
{
    if l.len() > 0 {
        lemma_words_nonempty(l.drop_last());
    }
}

/// Every word is at least one character long.
pub proof fn lemma_split_words_nonempty(l: Seq<char>)
    ensures
        forall|i: int| 0 <= i < split_words(l).len() ==> #[trigger] split_words(l)[i].len() > 0,
{
    lemma_words_nonempty(l);
}

/// The characters of `text`.
pub fn chars_of(text: &str) -> (r: Vec<char>)
    ensures
        r@ == text@,
{
    let mut out: Vec<char> = Vec::new();
    for c in it: text.chars()
        invariant
            it.seq() == text@,
            out@ == text@.take(it.index()),
    {
        out.push(c);
        assert(out@ == text@.take(it.index() + 1));
    }
    assert(text@.take(text@.len() as int) == text@);
    out
}

/// The words of `line`.
pub fn words_of(line: &Vec<char>) -> (r: Vec<Vec<char>>)
    ensures
        seqs(r@) == split_words(line@),
        forall|i: int| 0 <= i < r.len() ==> #[trigger] r[i].len() > 0,
{
    let mut words: Vec<Vec<char>> = Vec::new();
    let mut open = false;
    let mut i: usize = 0;
    while i < line.len()
        invariant
            0 <= i <= line.len(),
            (seqs(words@), open) == words_state(line@.take(i as int)),
        decreases line.len() - i,
    {
        let c = line[i];
        assert(line@.take(i + 1).drop_last() == line@.take(i as int));
        assert(line@.take(i + 1).last() == c);
        if space(c) {
            open = false;
        } else if open && words.len() > 0 {
            let last = words.len() - 1;
            let ghost before = seqs(words@);
            words[last].push(c);
            assert(seqs(words@) == before.update(last as int, before[last as int].push(c)));
        } else {
            let mut w: Vec<char> = Vec::new();
            w.push(c);
            let ghost before = seqs(words@);
            words.push(w);
            assert(seqs(words@) == before.push(seq![c]));
            open = true;
        }
        i = i + 1;
    }
    assert(line@.take(line@.len() as int) == line@);
    proof {
        lemma_words_nonempty(line@);
        assert(seqs(words@) == split_words(line@));
        assert forall|i: int| 0 <= i < words.len() implies #[trigger] words[i].len() > 0 by {
            assert(seqs(words@)[i] == words[i]@);
            assert(words_state(line@).0[i].len() > 0);
        }
    }
    words
}

/// Why text is no integer, as the standard library reports it.
#[derive(Debug, Clone, Copy, PartialEq, Eq, Structural)]
pub enum IntError {
    /// Nothing to read.
    Empty,
    /// A character that is no decimal digit, or a sign alone.
    InvalidDigit,
    /// The value is above the type's range.
    PosOverflow,
    /// The value is below the type's range.
    NegOverflow,
}

/// The standard library's wording of each integer error.
pub open spec fn int_error_text(e: IntError) -> Seq<char> {
    match e {
        IntError::Empty => "cannot parse integer from empty string"@,
        IntError::InvalidDigit => "invalid digit found in string"@,
        IntError::PosOverflow => "number too large to fit in target type"@,
        IntError::NegOverflow => "number too small to fit in target type"@,
    }
}

impl IntError {
    /// The error in words, as the standard library words it.
    pub fn message(&self) -> (r: &'static str)
        ensures
            r@ == int_error_text(*self),
    {
        match self {
            IntError::Empty => "cannot parse integer from empty string",
            IntError::InvalidDigit => "invalid digit found in string",
            IntError::PosOverflow => "number too large to fit in target type",
            IntError::NegOverflow => "number too small to fit in target type",
        }
    }
}

pub open spec fn is_digit(c: char) -> bool {
    48 <= c as u32 <= 57
}

pub open spec fn digit_value(c: char) -> int {
    c as u32 - 48
}

/// Reads the digits `ds` left to right from zero (subtracting each digit
/// when `neg`), stopping at the first character that is no digit or the
/// first prefix whose value leaves `[lo, hi]`.
pub open spec fn scan_digits(ds: Seq<char>, neg: bool, lo: int, hi: int) -> Result<int, IntError>
    decreases ds.len(),
{
    if ds.len() == 0 {
        Ok(0)
    } else {
        match scan_digits(ds.drop_last(), neg, lo, hi) {
            Err(e) => Err(e),
            Ok(v) => {
                let c = ds.last();
                if !is_digit(c) {
                    Err(IntError::InvalidDigit)
                } else {
                    let w = if neg { v * 10 - digit_value(c) } else { v * 10 + digit_value(c) };
                    if w > hi {
                        Err(IntError::PosOverflow)
                    } else if w < lo {
                        Err(IntError::NegOverflow)
                    } else {
                        Ok(w)
                    }
                }
            },
        }
    }
}

/// A decimal integer in `[lo, hi]`: an optional sign (`-` only for a
/// `signed` type) and one or more digits, as `str::parse` reads it.
pub open spec fn int_parse(t: Seq<char>, signed: bool, lo: int, hi: int) -> Result<int, IntError> {
    if t.len() == 0 {
        Err(IntError::Empty)
    } else if (t[0] == '+' || t[0] == '-') && t.len() == 1 {
        Err(IntError::InvalidDigit)
    } else if t[0] == '+' {
        scan_digits(t.drop_first(), false, lo, hi)
    } else if t[0] == '-' && signed {
        scan_digits(t.drop_first(), true, lo, hi)
    } else {
        scan_digits(t, false, lo, hi)
    }
}

proof fn lemma_scan_error_sticks(ds: Seq<char>, m: int, neg: bool, lo: int, hi: int)
    requires
        0 <= m <= ds.len(),
        scan_digits(ds.take(m), neg, lo, hi) is Err,
    ensures
        scan_digits(ds, neg, lo, hi) == scan_digits(ds.take(m), neg, lo, hi),
    decreases ds.len() - m,
{
    if m < ds.len() {
        assert(ds.take(m + 1).drop_last() == ds.take(m));
        lemma_scan_error_sticks(ds, m + 1, neg, lo, hi);
    } else {
        assert(ds.take(m) == ds);
    }
}

proof fn lemma_scan_in_range(ds: Seq<char>, neg: bool, lo: int, hi: int)
    requires
        lo <= 0 <= hi,
        scan_digits(ds, neg, lo, hi) is Ok,
    ensures
        lo <= scan_digits(ds, neg, lo, hi)->Ok_0 <= hi,
    decreases ds.len(),
{
    if ds.len() > 0 {
        lemma_scan_in_range(ds.drop_last(), neg, lo, hi);
    }
}

/// Reads `t[start..end]` as digits, as `scan_digits` says.
fn scan(t: &[char], start: usize, end: usize, neg: bool, lo: i64, hi: i64) -> (r: Result<i64, IntError>)
    requires
        start <= end <= t.len(),
        lo <= 0 <= hi,
    ensures
        match r {
            Ok(v) => scan_digits(t@.subrange(start as int, end as int), neg, lo as int, hi as int) == Ok::<int, IntError>(v as int),
            Err(e) => scan_digits(t@.subrange(start as int, end as int), neg, lo as int, hi as int) == Err::<int, IntError>(e),
        },
{
    let ghost ds = t@.subrange(start as int, end as int);
    let mut v: i64 = 0;
    let mut k: usize = start;
    while k < end
        invariant
            start <= k <= end <= t.len(),
            ds == t@.subrange(start as int, end as int),
            lo <= 0 <= hi,
            lo <= v <= hi,
            scan_digits(ds.take(k - start), neg, lo as int, hi as int) == Ok::<int, IntError>(v as int),
        decreases end - k,
    {
        let c = t[k];
        let ghost m = (k - start) as int;
        assert(ds.take(m + 1).drop_last() == ds.take(m));
        assert(ds.take(m + 1).last() == c);
        let u = c as u32;
        if u < 48 || u > 57 {
            proof {
                lemma_scan_error_sticks(ds, m + 1, neg, lo as int, hi as int);
            }
            return Err(IntError::InvalidDigit);
        }
        let d = (u - 48) as i128;
        let w: i128 = if neg { v as i128 * 10 - d } else { v as i128 * 10 + d };
        if w > hi as i128 {
            proof {
                lemma_scan_error_sticks(ds, m + 1, neg, lo as int, hi as int);
            }
            return Err(IntError::PosOverflow);
        }
        if w < lo as i128 {
            proof {
                lemma_scan_error_sticks(ds, m + 1, neg, lo as int, hi as int);
            }
            return Err(IntError::NegOverflow);
        }
        v = w as i64;
        k = k + 1;
    }
    assert(ds.take(end - start) == ds);
    Ok(v)
}

/// Reads `t[0..end]` as a decimal integer in `[lo, hi]`, with the errors of
/// `str::parse`.
pub fn parse_int(t: &[char], end: usize, signed: bool, lo: i64, hi: i64) -> (r: Result<i64, IntError>)
    requires
        end <= t.len(),
        lo <= 0 <= hi,
    ensures
        match r {
            Ok(v) => int_parse(t@.take(end as int), signed, lo as int, hi as int) == Ok::<int, IntError>(v as int),
            Err(e) => int_parse(t@.take(end as int), signed, lo as int, hi as int) == Err::<int, IntError>(e),
        },
{
    let ghost s = t@.take(end as int);
    if end == 0 {
        return Err(IntError::Empty);
    }
    let c = t[0];
    assert(s[0] == c);
    if (c == '+' || c == '-') && end == 1 {
        Err(IntError::InvalidDigit)
    } else if c == '+' {
        assert(s.drop_first() == t@.subrange(1, end as int));
        scan(t, 1, end, false, lo, hi)
    } else if c == '-' && signed {
        assert(s.drop_first() == t@.subrange(1, end as int));
        scan(t, 1, end, true, lo, hi)
    } else {
        assert(s == t@.subrange(0, end as int));
        scan(t, 0, end, false, lo, hi)
    }
}

} // verus!
