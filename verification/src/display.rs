//! The terminal layout of a daily word: title, quoted lines, attribution,
//! with HTML line breaks taken out.

use vstd::prelude::*;
use crate::chars::{chars_of, is_blank, push_all, push_char, string_of};
use crate::lines::{line_ranges, lines, ranges_are_lines};
use crate::quote::Tageswort;

verus! {

/// `s` with every occurrence of `pat` removed, scanning from the left and
/// skipping over each match (what `str::replace(pat, "")` gives).
pub open spec fn remove_all(s: Seq<char>, pat: Seq<char>) -> Seq<char>
    recommends
        pat.len() > 0,
    decreases s.len(),
{
    if s.len() == 0 {
        Seq::<char>::empty()
    } else if 0 < pat.len() <= s.len() && s.take(pat.len() as int) == pat {
        remove_all(s.skip(pat.len() as int), pat)
    } else {
        seq![s[0]] + remove_all(s.drop_first(), pat)
    }
}

pub open spec fn br_spaced() -> Seq<char> {
    seq!['<', 'b', 'r', ' ', '/', '>']
}

pub open spec fn br_closed() -> Seq<char> {
    seq!['<', 'b', 'r', '/', '>']
}

pub open spec fn br_open() -> Seq<char> {
    seq!['<', 'b', 'r', '>']
}

/// `s` after removing `<br />`, then `<br/>`, then `<br>`.
pub open spec fn strip_breaks(s: Seq<char>) -> Seq<char> {
    remove_all(remove_all(remove_all(s, br_spaced()), br_closed()), br_open())
}

/// Whether `pat` occurs in `s` at position `i`.
fn matches_at(s: &Vec<char>, i: usize, pat: &Vec<char>) -> (r: bool)
    requires
        i <= s.len(),
    ensures
        r == (i + pat.len() <= s.len() && s@.subrange(i as int, i + pat.len()) == pat@),
{
    if pat.len() > s.len() - i {
        return false;
    }
    let mut k: usize = 0;
    while k < pat.len()
        invariant
            i + pat.len() <= s.len(),
            k <= pat.len(),
            forall|m: int| 0 <= m < k ==> s@[i + m] == pat@[m],
        decreases pat.len() - k,
    {
        if s[i + k] != pat[k] {
            assert(s@.subrange(i as int, i + pat.len())[k as int] != pat@[k as int]);
            return false;
        }
        k = k + 1;
    }
    assert(s@.subrange(i as int, i + pat.len()) =~= pat@);
    true
}

/// `s` with every occurrence of `pat` removed.
fn remove_pattern(s: &Vec<char>, pat: &Vec<char>) -> (out: Vec<char>)
    requires
        pat.len() > 0,
    ensures
        out@ == remove_all(s@, pat@),
{
    let mut out: Vec<char> = Vec::new();
    let mut i: usize = 0;
    assert(s@.skip(0) =~= s@);
    while i < s.len()
        invariant
            pat.len() > 0,
            i <= s.len(),
            out@ + remove_all(s@.skip(i as int), pat@) == remove_all(s@, pat@),
        decreases s.len() - i,
    {
        let ghost rest = s@.skip(i as int);
        if matches_at(s, i, pat) {
            assert(rest.take(pat.len() as int) =~= s@.subrange(i as int, i + pat.len()));
            assert(rest.skip(pat.len() as int) =~= s@.skip(i + pat.len()));
            i = i + pat.len();
        } else {
            assert(rest.len() < pat.len() || rest.take(pat.len() as int) != pat@) by {
                if rest.len() >= pat.len() {
                    assert(rest.take(pat.len() as int) =~= s@.subrange(i as int, i + pat.len()));
                }
            }
            assert(rest.drop_first() =~= s@.skip(i + 1));
            assert(out@.push(s@[i as int]) + remove_all(s@.skip(i + 1), pat@) =~= out@ + (seq![
                rest[0],
            ] + remove_all(rest.drop_first(), pat@)));
            out.push(s[i]);
            i = i + 1;
        }
    }
    assert(s@.skip(i as int) =~= Seq::<char>::empty());
    assert(out@ + Seq::<char>::empty() =~= out@);
    out
}

/// `s` with `<br />`, `<br/>` and `<br>` taken out, in that order.
fn strip_break_chars(s: &Vec<char>) -> (out: Vec<char>)
    ensures
        out@ == strip_breaks(s@),
{
    let p1 = vec!['<', 'b', 'r', ' ', '/', '>'];
    let p2 = vec!['<', 'b', 'r', '/', '>'];
    let p3 = vec!['<', 'b', 'r', '>'];
    assert(p1@ =~= br_spaced());
    assert(p2@ =~= br_closed());
    assert(p3@ =~= br_open());
    let a = remove_pattern(s, &p1);
    let b = remove_pattern(&a, &p2);
    remove_pattern(&b, &p3)
}

/// `text` with the HTML line breaks `<br />`, `<br/>` and `<br>` removed,
/// in that order.
pub fn strip_html_break_tags(text: &str) -> (r: String)
    ensures
        r@ == strip_breaks(text@),
{
    let s = chars_of(text);
    string_of(&strip_break_chars(&s))
}

/// The quoted lines, each as `> ` and the line without breaks, then `\n`.
pub open spec fn quote_block(qs: Seq<Seq<char>>) -> Seq<char>
    decreases qs.len(),
{
    if qs.len() == 0 {
        Seq::<char>::empty()
    } else {
        quote_block(qs.drop_last()) + seq!['>', ' '] + strip_breaks(qs.last()) + seq!['\n']
    }
}

/// The line of details under the author, where there is one.
pub open spec fn detail_suffix(detail: Seq<char>) -> Seq<char> {
    if is_blank(detail) {
        Seq::<char>::empty()
    } else {
        seq!['\n', ' ', ' '] + detail
    }
}

/// How a daily word's text is shown. A text of at least four lines whose
/// first line (the title) is not blank becomes: the title, an empty line,
/// each line between the title and the last two as a quoted line, an empty
/// line, `— ` and the author (the second-to-last line), then the details (the
/// last line) indented on a line of their own unless they are blank. Any
/// other text is shown as it is. HTML line breaks are taken out of every
/// part.
pub open spec fn display_text(t: Seq<char>) -> Seq<char> {
    let ls = lines(t);
    let n = ls.len();
    if n < 4 || is_blank(strip_breaks(ls[0])) {
        strip_breaks(t)
    } else {
        strip_breaks(ls[0]) + seq!['\n', '\n'] + quote_block(ls.subrange(1, n - 2)) + seq![
            '\n',
            '\u{2014}',
            ' ',
        ] + strip_breaks(ls[n - 2]) + detail_suffix(strip_breaks(ls[n - 1]))
    }
}

/// The characters `s[a..b]`.
fn slice_chars(s: &Vec<char>, a: usize, b: usize) -> (v: Vec<char>)
    requires
        a <= b <= s.len(),
    ensures
        v@ == s@.subrange(a as int, b as int),
{
    let mut v: Vec<char> = Vec::new();
    let mut i = a;
    while i < b
        invariant
            a <= i <= b <= s.len(),
            v@ == s@.subrange(a as int, i as int),
        decreases b - i,
    {
        v.push(s[i]);
        assert(s@.subrange(a as int, i + 1) =~= s@.subrange(a as int, i as int).push(s@[i as int]));
        i = i + 1;
    }
    v
}

/// Line `j` of `s`, with its HTML line breaks taken out.
fn stripped_line(s: &Vec<char>, r: &Vec<(usize, usize)>, j: usize) -> (v: Vec<char>)
    requires
        ranges_are_lines(s@, r@, lines(s@)),
        j < r.len(),
    ensures
        v@ == strip_breaks(lines(s@)[j as int]),
{
    let (a, b) = r[j];
    assert(r@[j as int].0 <= r@[j as int].1 <= s.len());
    strip_break_chars(&slice_chars(s, a, b))
}

/// Lays out a daily word's text for the terminal; see [`display_text`].
pub fn format_tageswort_for_display(text: &str) -> (out: String)
    ensures
        out@ == display_text(text@),
{
    let s = chars_of(text);
    let r = line_ranges(&s);
    let ghost ls = lines(s@);
    let n = r.len();
    if n < 4 {
        return string_of(&strip_break_chars(&s));
    }
    let title = stripped_line(&s, &r, 0);
    if crate::chars::is_blank_range(&title, 0, title.len()) {
        assert(title@.subrange(0, title.len() as int) =~= title@);
        return string_of(&strip_break_chars(&s));
    }
    assert(title@.subrange(0, title.len() as int) =~= title@);
    let mut out = String::new();
    push_all(&mut out, &title);
    push_char(&mut out, '\n');
    push_char(&mut out, '\n');
    let ghost head = out@;
    assert(head =~= strip_breaks(ls[0]) + seq!['\n', '\n']);
    let mut j: usize = 1;
    assert(ls.subrange(1, 1) =~= Seq::<Seq<char>>::empty());
    while j < n - 2
        invariant
            ls == lines(s@),
            ranges_are_lines(s@, r@, ls),
            n == r.len(),
            n >= 4,
            1 <= j <= n - 2,
            out@ == head + quote_block(ls.subrange(1, j as int)),
        decreases n - 2 - j,
    {
        let q = stripped_line(&s, &r, j);
        push_char(&mut out, '>');
        push_char(&mut out, ' ');
        push_all(&mut out, &q);
        push_char(&mut out, '\n');
        let ghost next = ls.subrange(1, j + 1);
        assert(next.drop_last() =~= ls.subrange(1, j as int));
        assert(next.last() == ls[j as int]);
        assert(out@ =~= head + quote_block(ls.subrange(1, j as int)) + seq!['>', ' '] + strip_breaks(
            ls[j as int],
        ) + seq!['\n']);
        j = j + 1;
    }
    push_char(&mut out, '\n');
    push_char(&mut out, '\u{2014}');
    push_char(&mut out, ' ');
    let name = stripped_line(&s, &r, n - 2);
    push_all(&mut out, &name);
    let detail = stripped_line(&s, &r, n - 1);
    let blank_detail = crate::chars::is_blank_range(&detail, 0, detail.len());
    assert(detail@.subrange(0, detail.len() as int) =~= detail@);
    if !blank_detail {
        push_char(&mut out, '\n');
        push_char(&mut out, ' ');
        push_char(&mut out, ' ');
        push_all(&mut out, &detail);
    }
    assert(out@ =~= display_text(text@));
    out
}

impl Tageswort {
    /// The daily word as shown on the terminal: its text laid out by
    /// [`display_text`].
    pub fn to_string(&self) -> (out: String)
        ensures
            out@ == display_text(self.text@),
    {
        format_tageswort_for_display(self.text.as_str())
    }
}

} // verus!
