//! The position translator: line/column coordinates to visible offsets.
//!
//! Coordinates are normalized rather than rejected: a column past the end of
//! its line clamps to the line end, and a line past the last line clamps to
//! the end of the document, so malformed coordinates can never corrupt the
//! position arithmetic downstream.

use vstd::prelude::*;

verus! {

/// The offset of the newline that ends the line containing `from`, or the
/// document end when that line is unterminated.
pub open spec fn line_end(t: Seq<char>, from: int) -> int
    decreases t.len() - from,
{
    if from >= t.len() {
        t.len() as int
    } else if t[from] == '\n' {
        from
    } else {
        line_end(t, from + 1)
    }
}

/// The offset at which line `line` starts; the document end when `line` is
/// past the last line.
pub open spec fn line_start(t: Seq<char>, line: int) -> int
    decreases line,
{
    if line <= 0 {
        0
    } else {
        let e = line_end(t, line_start(t, line - 1));
        if e < t.len() {
            e + 1
        } else {
            t.len() as int
        }
    }
}

/// The resolved offset of a line/column coordinate: the line's start plus
/// the column clamped to the line's length.
pub open spec fn resolve_spec(t: Seq<char>, line: int, col: int) -> int {
    let s = line_start(t, line);
    let e = line_end(t, s);
    if col < e - s {
        s + col
    } else {
        e
    }
}

/// The number of newline characters in `t`.
pub open spec fn count_nl(t: Seq<char>) -> int
    decreases t.len(),
{
    if t.len() == 0 {
        0
    } else {
        (if t[0] == '\n' {
            1int
        } else {
            0int
        }) + count_nl(t.drop_first())
    }
}

/// The number of lines: one more than the number of separators.
pub open spec fn line_count(t: Seq<char>) -> int {
    count_nl(t) + 1
}

pub proof fn lemma_line_end_bounds(t: Seq<char>, from: int)
    requires
        0 <= from <= t.len(),
    ensures
        from <= line_end(t, from) <= t.len(),
    decreases t.len() - from,
{
    if from < t.len() && t[from] != '\n' {
        lemma_line_end_bounds(t, from + 1);
    }
}

pub proof fn lemma_line_start_bounds(t: Seq<char>, line: int)
    ensures
        0 <= line_start(t, line) <= t.len(),
    decreases line,
{
    if line > 0 {
        lemma_line_start_bounds(t, line - 1);
        lemma_line_end_bounds(t, line_start(t, line - 1));
    }
}

pub proof fn lemma_line_start_saturate(t: Seq<char>, l: int, line: int)
    requires
        0 <= l <= line,
        line_start(t, l) == t.len(),
    ensures
        line_start(t, line) == t.len(),
    decreases line - l,
{
    if line > l {
        lemma_line_start_saturate(t, l, line - 1);
    }
}

pub proof fn lemma_count_nl_snoc(t: Seq<char>, c: char)
    ensures
        count_nl(t.push(c)) == count_nl(t) + if c == '\n' {
            1int
        } else {
            0int
        },
    decreases t.len(),
{
    let u = t.push(c);
    if t.len() == 0 {
        assert(u[0] == c);
        assert(u.drop_first() =~= Seq::<char>::empty());
        assert(count_nl(u.drop_first()) == 0);
    } else {
        assert(u[0] == t[0]);
        assert(u.drop_first() =~= t.drop_first().push(c));
        lemma_count_nl_snoc(t.drop_first(), c);
    }
}

pub proof fn lemma_count_nl_nonneg(t: Seq<char>)
    ensures
        count_nl(t) >= 0,
    decreases t.len(),
{
    if t.len() > 0 {
        lemma_count_nl_nonneg(t.drop_first());
    }
}

pub proof fn lemma_count_nl_concat(a: Seq<char>, b: Seq<char>)
    ensures
        count_nl(a + b) == count_nl(a) + count_nl(b),
    decreases a.len(),
{
    if a.len() == 0 {
        assert(a + b =~= b);
    } else {
        assert((a + b)[0] == a[0]);
        assert((a + b).drop_first() =~= a.drop_first() + b);
        lemma_count_nl_concat(a.drop_first(), b);
    }
}

pub proof fn lemma_count_nl_le_len(t: Seq<char>)
    ensures
        0 <= count_nl(t) <= t.len(),
    decreases t.len(),
{
    if t.len() > 0 {
        lemma_count_nl_le_len(t.drop_first());
    }
}

/// No separator sits strictly before a line's end, and its end is a
/// separator whenever it is not the document end.
pub proof fn lemma_line_end_no_nl(t: Seq<char>, from: int)
    requires
        0 <= from <= t.len(),
    ensures
        forall|m: int| from <= m < line_end(t, from) ==> t[m] != '\n',
        line_end(t, from) < t.len() ==> t[line_end(t, from)] == '\n',
    decreases t.len() - from,
{
    if from < t.len() && t[from] != '\n' {
        lemma_line_end_no_nl(t, from + 1);
    }
}

pub proof fn lemma_count_nl_zero(t: Seq<char>)
    requires
        forall|m: int| 0 <= m < t.len() ==> t[m] != '\n',
    ensures
        count_nl(t) == 0,
    decreases t.len(),
{
    if t.len() > 0 {
        assert forall|m: int| 0 <= m < t.drop_first().len() implies t.drop_first()[m] != '\n' by {
            assert(t.drop_first()[m] == t[m + 1]);
        }
        lemma_count_nl_zero(t.drop_first());
    }
}

/// Scans for the end of the line starting at `from`.
#[verifier::loop_isolation(false)]
pub fn scan_line_end(text: &Vec<char>, from: usize) -> (e: usize)
    requires
        from <= text@.len(),
    ensures
        e == line_end(text@, from as int),
        from <= e <= text@.len(),
{
    let n = text.len();
    let mut e = from;
    while e < n && text[e] != '\n'
        invariant
            from <= e <= n,
            line_end(text@, from as int) == line_end(text@, e as int),
        decreases n - e,
    {
        e = e + 1;
    }
    proof {
        lemma_line_end_bounds(text@, from as int);
    }
    e
}

/// Resolves a line/column coordinate against the visible text.
#[verifier::loop_isolation(false)]
pub fn resolve(text: &Vec<char>, line: usize, col: usize) -> (pos: usize)
    ensures
        pos == resolve_spec(text@, line as int, col as int),
        pos <= text@.len(),
{
    let n = text.len();
    let mut l: usize = 0;
    let mut s: usize = 0;
    while l < line && s < n
        invariant
            0 <= l <= line,
            s == line_start(text@, l as int),
            s <= n,
            n == text@.len(),
        decreases line - l,
    {
        let e = scan_line_end(text, s);
        if e < n {
            s = e + 1;
        } else {
            s = n;
        }
        l = l + 1;
    }
    proof {
        if l < line {
            lemma_line_start_saturate(text@, l as int, line as int);
            assert(line_start(text@, line as int) == s as int);
        }
        lemma_line_start_bounds(text@, line as int);
    }
    let e = scan_line_end(text, s);
    if col < e - s {
        s + col
    } else {
        e
    }
}

/// Counts the newline characters in the first `upto` visible characters.
#[verifier::loop_isolation(false)]
pub fn count_newlines_prefix(text: &Vec<char>, upto: usize) -> (c: usize)
    requires
        upto <= text@.len(),
    ensures
        c == count_nl(text@.take(upto as int)),
        c <= upto,
{
    let mut c: usize = 0;
    let mut i: usize = 0;
    proof {
        assert(text@.take(0) =~= Seq::<char>::empty());
    }
    while i < upto
        invariant
            i <= upto,
            c <= i,
            c == count_nl(text@.take(i as int)),
        decreases upto - i,
    {
        proof {
            assert(text@.take(i as int + 1) =~= text@.take(i as int).push(text@[i as int]));
            lemma_count_nl_snoc(text@.take(i as int), text@[i as int]);
        }
        if text[i] == '\n' {
            c = c + 1;
        }
        i = i + 1;
    }
    c
}

} // verus!
