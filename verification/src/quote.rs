//! The daily word as the library holds it, and the parser of a decoded
//! response.
//!
//! A decoded response is a block of lines: the quote text (title, quote,
//! author, details), then the quote id, then a footer id. Blank lines around
//! the block do not count.

use vstd::prelude::*;
use crate::chars::{chars_of, is_blank, is_blank_range, push_range};
use crate::lines::{join_lines, line_ranges, lines, ranges_are_lines};

verus! {

/// Where to fetch the daily word from.
pub struct Config {
    url: String,
}

/// The URL the daily word is fetched from unless configured otherwise.
pub const DEFAULT_URL: &'static str = "https://assets.aphorismen.de/tagesspruch/tageswort.txt";

impl Config {
    /// The URL this configuration fetches from.
    pub closed spec fn url_view(&self) -> Seq<char> {
        self.url@
    }

    pub fn new(url: String) -> (c: Config)
        ensures
            c.url_view() == url@,
    {
        Config { url }
    }

    /// The configuration for an optional override of the URL (the value of
    /// `TAGESWORT_URL` where it is set); without one, [`DEFAULT_URL`].
    pub fn from_url_override(url: Option<String>) -> (c: Config)
        ensures
            c.url_view() == (match url {
                Some(u) => u@,
                None => DEFAULT_URL@,
            }),
    {
        match url {
            Some(u) => Config::new(u),
            None => Config::new(String::from_str(DEFAULT_URL)),
        }
    }

    pub fn url(&self) -> (r: &str)
        ensures
            r@ == self.url_view(),
    {
        self.url.as_str()
    }
}

/// A parsed daily word: its text and the link to it on aphorismen.de.
pub struct Tageswort {
    pub text: String,
    pub link: String,
}

/// `std::string::FromUtf8Error`, the error of a body whose decoded bytes are
/// not UTF-8.
#[verifier::external_type_specification]
#[verifier::external_body]
pub struct ExFromUtf8Error(std::string::FromUtf8Error);

/// Why no daily word could be had.
#[derive(Debug)]
pub enum TageswortError {
    /// The request failed; the text describes how.
    Reqwest(String),
    /// The decoded body is not valid UTF-8.
    UrlEncoding(std::string::FromUtf8Error),
    /// The decoded body does not have the shape of a daily word.
    ParseError,
}

impl From<std::string::FromUtf8Error> for TageswortError {
    /// A body whose decoded bytes are not UTF-8.
    fn from(error: std::string::FromUtf8Error) -> (r: Self) {
        TageswortError::UrlEncoding(error)
    }
}

impl vstd::std_specs::convert::FromSpecImpl<std::string::FromUtf8Error> for TageswortError {
    open spec fn obeys_from_spec() -> bool {
        true
    }

    open spec fn from_spec(v: std::string::FromUtf8Error) -> Self {
        TageswortError::UrlEncoding(v)
    }
}

/// The text shown when neither the network nor today's cache has a quote.
pub const OFFLINE_FALLBACK_QUOTE: &'static str = "No network today. The quote couldn't make the net work.";

/// The start of every link to a quote.
pub const LINK_PREFIX: &'static str = "https://aphorismen.de/zitat/";

/// `ls` without its leading blank lines.
pub open spec fn drop_leading_blank(ls: Seq<Seq<char>>) -> Seq<Seq<char>>
    decreases ls.len(),
{
    if ls.len() > 0 && is_blank(ls[0]) {
        drop_leading_blank(ls.drop_first())
    } else {
        ls
    }
}

/// `ls` without its trailing blank lines.
pub open spec fn drop_trailing_blank(ls: Seq<Seq<char>>) -> Seq<Seq<char>>
    decreases ls.len(),
{
    if ls.len() > 0 && is_blank(ls.last()) {
        drop_trailing_blank(ls.drop_last())
    } else {
        ls
    }
}

/// The lines of `text` between its outer blank lines.
pub open spec fn content_lines(text: Seq<char>) -> Seq<Seq<char>> {
    drop_trailing_blank(drop_leading_blank(lines(text)))
}

/// What a decoded response holds: `None` where it has fewer than three
/// content lines or a blank quote id; else the text (the content lines but
/// the last two, joined with `\n`) and the link (the prefix and the quote id,
/// the second-to-last content line, as it stands).
pub open spec fn parse_spec(text: Seq<char>) -> Option<(Seq<char>, Seq<char>)> {
    let c = content_lines(text);
    if c.len() < 3 || is_blank(c[c.len() - 2]) {
        None
    } else {
        Some((join_lines(c.take(c.len() - 2)), LINK_PREFIX@ + c[c.len() - 2]))
    }
}

/// The result of parsing `text`, stated over [`parse_spec`].
pub open spec fn parse_result_matches(text: Seq<char>, r: Result<Tageswort, TageswortError>) -> bool {
    match parse_spec(text) {
        Some((t, l)) => r matches Ok(tw) && tw.text@ == t && tw.link@ == l,
        None => r matches Err(TageswortError::ParseError),
    }
}

/// The first line that is not blank (or the end).
fn first_content_line(s: &Vec<char>, r: &Vec<(usize, usize)>) -> (a: usize)
    requires
        ranges_are_lines(s@, r@, lines(s@)),
    ensures
        a <= r.len(),
        drop_leading_blank(lines(s@)) == lines(s@).skip(a as int),
{
    let ghost ls = lines(s@);
    let n = r.len();
    let mut a: usize = 0;
    assert(ls.skip(0) =~= ls);
    while a < n
        invariant
            n == r.len(),
            ls == lines(s@),
            ranges_are_lines(s@, r@, ls),
            a <= n,
            drop_leading_blank(ls) == drop_leading_blank(ls.skip(a as int)),
        decreases n - a,
    {
        let (start, end) = r[a];
        assert(r@[a as int].0 <= r@[a as int].1 <= s.len());
        assert(s@.subrange(start as int, end as int) == ls[a as int]);
        if !is_blank_range(s, start, end) {
            assert(ls.skip(a as int)[0] == ls[a as int]);
            assert(ls.skip(a as int).len() > 0);
            assert(drop_leading_blank(ls.skip(a as int)) == ls.skip(a as int));
            return a;
        }
        assert(ls.skip(a as int).drop_first() =~= ls.skip(a + 1));
        a = a + 1;
    }
    assert(ls.skip(n as int) =~= Seq::<Seq<char>>::empty());
    a
}

/// The end of the lines from `a` on, less their trailing blank lines.
fn end_of_content(s: &Vec<char>, r: &Vec<(usize, usize)>, a: usize) -> (b: usize)
    requires
        ranges_are_lines(s@, r@, lines(s@)),
        a <= r.len(),
    ensures
        a <= b <= r.len(),
        drop_trailing_blank(lines(s@).skip(a as int)) == lines(s@).subrange(a as int, b as int),
{
    let ghost ls = lines(s@);
    let mut b: usize = r.len();
    assert(ls.skip(a as int) =~= ls.subrange(a as int, b as int));
    while b > a
        invariant
            ls == lines(s@),
            ranges_are_lines(s@, r@, ls),
            a <= b <= r.len(),
            drop_trailing_blank(ls.skip(a as int)) == drop_trailing_blank(
                ls.subrange(a as int, b as int),
            ),
        decreases b - a,
    {
        let (start, end) = r[b - 1];
        assert(r@[b - 1].0 <= r@[b - 1].1 <= s.len());
        assert(s@.subrange(start as int, end as int) == ls[b - 1]);
        if !is_blank_range(s, start, end) {
            assert(ls.subrange(a as int, b as int).last() == ls[b - 1]);
            assert(drop_trailing_blank(ls.subrange(a as int, b as int)) == ls.subrange(a as int, b as int));
            return b;
        }
        assert(ls.subrange(a as int, b as int).drop_last() =~= ls.subrange(a as int, b - 1));
        b = b - 1;
    }
    assert(ls.subrange(a as int, b as int) =~= Seq::<Seq<char>>::empty());
    b
}

/// The lines `a..e` joined with `\n`.
fn join_line_ranges(s: &Vec<char>, r: &Vec<(usize, usize)>, a: usize, e: usize) -> (out: String)
    requires
        ranges_are_lines(s@, r@, lines(s@)),
        a <= e <= r.len(),
    ensures
        out@ == join_lines(lines(s@).subrange(a as int, e as int)),
{
    let ghost ls = lines(s@);
    let mut out = String::new();
    let mut j = a;
    assert(ls.subrange(a as int, a as int) =~= Seq::<Seq<char>>::empty());
    while j < e
        invariant
            ls == lines(s@),
            ranges_are_lines(s@, r@, ls),
            a <= j <= e <= r.len(),
            out@ == join_lines(ls.subrange(a as int, j as int)),
        decreases e - j,
    {
        let ghost prev = ls.subrange(a as int, j as int);
        let ghost next = ls.subrange(a as int, j + 1);
        assert(next.drop_last() =~= prev);
        assert(next.last() == ls[j as int]);
        if j > a {
            crate::chars::push_char(&mut out, '\n');
        }
        let (start, end) = r[j];
        assert(r@[j as int].0 <= r@[j as int].1 <= s.len());
        push_range(&mut out, s, start, end);
        if j == a {
            assert(next.len() == 1);
            assert(out@ =~= next[0]);
        } else {
            assert(out@ =~= join_lines(prev) + seq!['\n'] + ls[j as int]);
        }
        j = j + 1;
    }
    out
}

/// Parses a decoded response into a [`Tageswort`].
///
/// The lines around the block that are blank (all whitespace) are dropped.
/// What remains must have at least three lines, and its second-to-last line
/// (the quote id) must not be blank; else the result is
/// `TageswortError::ParseError`. The text is the remaining lines but the last
/// two, joined with `\n`; the link is [`LINK_PREFIX`] followed by the quote id.
pub fn parse_tageswort_from_response(text: String) -> (r: Result<Tageswort, TageswortError>)
    ensures
        parse_result_matches(text@, r),
{
    let s = chars_of(text.as_str());
    let r = line_ranges(&s);
    let ghost ls = lines(s@);
    let a = first_content_line(&s, &r);
    let b = end_of_content(&s, &r, a);
    let ghost c = content_lines(text@);
    assert(c == ls.subrange(a as int, b as int));
    if b - a < 3 {
        return Err(TageswortError::ParseError);
    }
    let (id_start, id_end) = r[b - 2];
    assert(r@[b - 2].0 <= r@[b - 2].1 <= s.len());
    assert(c[c.len() - 2] == ls[b - 2]);
    if is_blank_range(&s, id_start, id_end) {
        return Err(TageswortError::ParseError);
    }
    let body = join_line_ranges(&s, &r, a, b - 2);
    assert(c.take(c.len() - 2) =~= ls.subrange(a as int, b - 2));
    let mut link = String::from_str(LINK_PREFIX);
    push_range(&mut link, &s, id_start, id_end);
    Ok(Tageswort { text: body, link })
}

/// A cached response read back: the daily word it holds, or `None` where it
/// does not parse.
pub fn parse_cached_tageswort(text: String) -> (r: Option<Tageswort>)
    ensures
        match parse_spec(text@) {
            Some((t, l)) => r matches Some(tw) && tw.text@ == t && tw.link@ == l,
            None => r is None,
        },
{
    match parse_tageswort_from_response(text) {
        Ok(tw) => Some(tw),
        Err(_) => None,
    }
}

/// The daily word shown when neither the network nor today's cache has one:
/// [`OFFLINE_FALLBACK_QUOTE`] with an empty link.
pub fn offline_fallback_tageswort() -> (r: Tageswort)
    ensures
        r.text@ == OFFLINE_FALLBACK_QUOTE@,
        r.link@ == Seq::<char>::empty(),
{
    Tageswort { text: String::from_str(OFFLINE_FALLBACK_QUOTE), link: String::new() }
}

} // verus!
