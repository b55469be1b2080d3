//! The view projector: a line-oriented projection of the visible text for
//! rendering, each line paired with an identifier and accompanied by the
//! local version.

use crate::engine::{push_char, KernEngine};
use crate::position::{
    count_nl, lemma_count_nl_concat, lemma_count_nl_le_len, lemma_count_nl_snoc,
    lemma_count_nl_zero, lemma_line_end_no_nl, line_count, line_end, line_start, scan_line_end,
};
use vstd::prelude::*;

verus! {

/// One rendered line: its identifier and its content, without the separator.
pub struct LineView {
    pub id: String,
    pub content: String,
}

/// The rendered document: its lines in order plus the local version.
pub struct DocumentView {
    pub lines: Vec<LineView>,
    pub version: u64,
}

/// The decimal digits of a non-negative number, most significant first.
pub open spec fn dec_digits(n: int) -> Seq<char>
    decreases n,
{
    if n < 10 {
        seq![digit_char(n)]
    } else {
        dec_digits(n / 10).push(digit_char(n % 10))
    }
}

/// The character for one decimal digit.
pub open spec fn digit_char(d: int) -> char {
    ((48 + d) as u8) as char
}

/// Formats a number in decimal.
pub fn u64_to_string(n: u64) -> (s: String)
    ensures
        s@ == dec_digits(n as int),
    decreases n,
{
    if n < 10 {
        let mut s = String::new();
        push_char(&mut s, (48 + n as u8) as char);
        proof {
            assert(s@ =~= seq![digit_char(n as int)]);
        }
        s
    } else {
        let mut s = u64_to_string(n / 10);
        push_char(&mut s, (48 + (n % 10) as u8) as char);
        s
    }
}

/// Copies a range of the text into a string.
#[verifier::loop_isolation(false)]
fn line_string(text: &Vec<char>, s: usize, e: usize) -> (r: String)
    requires
        s <= e <= text@.len(),
    ensures
        r@ == text@.subrange(s as int, e as int),
{
    let mut r = String::new();
    let mut i = s;
    proof {
        assert(text@.subrange(s as int, s as int) =~= Seq::<char>::empty());
    }
    while i < e
        invariant
            s <= i <= e,
            r@ == text@.subrange(s as int, i as int),
        decreases e - i,
    {
        push_char(&mut r, text[i]);
        proof {
            assert(text@.subrange(s as int, i as int + 1) =~= text@.subrange(
                s as int,
                i as int,
            ).push(text@[i as int]));
        }
        i = i + 1;
    }
    r
}

impl KernEngine {
    /// Projects the document into its lines.  Line `l` carries its index in
    /// decimal as identifier and the characters between its start and its
    /// end, separator excluded; the view also reports the local version.
    #[verifier::loop_isolation(false)]
    #[verifier::rlimit(100)]
    pub fn get_view(&self) -> (view: DocumentView)
        requires
            self.wf(),
        ensures
            view.version == self.version,
            view.lines@.len() == line_count(self.text()),
            forall|l: int|
                0 <= l < view.lines@.len() ==> {
                    &&& (#[trigger] view.lines@[l]).content@ == self.text().subrange(
                        line_start(self.text(), l),
                        line_end(self.text(), line_start(self.text(), l)),
                    )
                    &&& view.lines@[l].id@ == dec_digits(l)
                },
    {
        let text = self.container.visible_chars();
        let ghost t = text@;
        let n = text.len();
        let mut lines: Vec<LineView> = Vec::new();
        let mut s: usize = 0;
        let mut l: usize = 0;
        proof {
            assert(t.take(0) =~= Seq::<char>::empty());
        }
        loop
            invariant
                s == line_start(t, l as int),
                s <= n,
                n == t.len(),
                lines@.len() == l,
                l <= s,
                count_nl(t.take(s as int)) == l,
                forall|j: int|
                    0 <= j < l ==> {
                        &&& (#[trigger] lines@[j]).content@ == t.subrange(
                            line_start(t, j),
                            line_end(t, line_start(t, j)),
                        )
                        &&& lines@[j].id@ == dec_digits(j)
                    },
            decreases n - s,
        {
            let e = scan_line_end(&text, s);
            let content = line_string(&text, s, e);
            let id = u64_to_string(l as u64);
            let ghost lv0 = lines@;
            lines.push(LineView { id, content });
            proof {
                assert forall|j: int| 0 <= j < lines@.len() implies {
                    &&& (#[trigger] lines@[j]).content@ == t.subrange(
                        line_start(t, j),
                        line_end(t, line_start(t, j)),
                    )
                    &&& lines@[j].id@ == dec_digits(j)
                } by {
                    if j < l {
                        assert(lines@[j] == lv0[j]);
                    } else {
                        assert(lines@[j] == lines@[lv0.len() as int]);
                    }
                }
            }
            if e < n {
                proof {
                    lemma_line_end_no_nl(t, s as int);
                    assert(t.take(e as int + 1) =~= t.take(s as int) + t.subrange(
                        s as int,
                        e as int,
                    ) + seq![t[e as int]]);
                    lemma_count_nl_concat(
                        t.take(s as int) + t.subrange(s as int, e as int),
                        seq![t[e as int]],
                    );
                    lemma_count_nl_concat(t.take(s as int), t.subrange(s as int, e as int));
                    assert forall|m: int|
                        0 <= m < t.subrange(s as int, e as int).len() implies t.subrange(
                        s as int,
                        e as int,
                    )[m] != '\n' by {
                        assert(t.subrange(s as int, e as int)[m] == t[s + m]);
                    }
                    lemma_count_nl_zero(t.subrange(s as int, e as int));
                    assert(seq![t[e as int]].drop_first() =~= Seq::<char>::empty());
                    assert(count_nl(seq![t[e as int]].drop_first()) == 0);
                    assert(t[e as int] == '\n');
                    assert(seq![t[e as int]][0] == t[e as int]);
                    assert(count_nl(seq![t[e as int]]) == 1);
                    assert(count_nl(t.take(e as int + 1)) == l + 1);
                }
                s = e + 1;
                l = l + 1;
            } else {
                proof {
                    assert(t.take(s as int) + t.subrange(s as int, n as int) =~= t);
                    lemma_count_nl_concat(t.take(s as int), t.subrange(s as int, n as int));
                    lemma_line_end_no_nl(t, s as int);
                    assert forall|m: int|
                        0 <= m < t.subrange(s as int, n as int).len() implies t.subrange(
                        s as int,
                        n as int,
                    )[m] != '\n' by {
                        assert(t.subrange(s as int, n as int)[m] == t[s + m]);
                    }
                    lemma_count_nl_zero(t.subrange(s as int, n as int));
                    assert(count_nl(t) == l);
                    assert(lines@.len() == line_count(t));
                }
                break ;
            }
        }
        DocumentView { lines, version: self.get_version() }
    }
}

} // verus!
