//! The name of a day's cache file: the date as chrono writes it with
//! `%Y-%m-%d`, then `.txt`.

use vstd::prelude::*;
use crate::chars::string_of;

verus! {

/// The decimal digit `d` (for `d` below 10).
pub open spec fn digit_char(d: int) -> char {
    if d == 0 {
        '0'
    } else if d == 1 {
        '1'
    } else if d == 2 {
        '2'
    } else if d == 3 {
        '3'
    } else if d == 4 {
        '4'
    } else if d == 5 {
        '5'
    } else if d == 6 {
        '6'
    } else if d == 7 {
        '7'
    } else if d == 8 {
        '8'
    } else {
        '9'
    }
}

/// The decimal digits of `n`, without leading zeros.
pub open spec fn decimal(n: nat) -> Seq<char>
    decreases n,
{
    if n < 10 {
        seq![digit_char(n as int)]
    } else {
        decimal(n / 10).push(digit_char((n % 10) as int))
    }
}

/// `s` with zeros in front up to `width` characters.
pub open spec fn zero_padded(s: Seq<char>, width: nat) -> Seq<char> {
    if s.len() >= width {
        s
    } else {
        Seq::new((width - s.len()) as nat, |i: int| '0') + s
    }
}

/// A year as `%Y` writes it: four digits at least, zero-padded; outside
/// 0 to 9999 with its sign in front.
pub open spec fn year_text(y: int) -> Seq<char> {
    if 0 <= y <= 9999 {
        zero_padded(decimal(y as nat), 4)
    } else if y > 9999 {
        seq!['+'] + zero_padded(decimal(y as nat), 4)
    } else {
        seq!['-'] + zero_padded(decimal((-y) as nat), 4)
    }
}

/// The cache file name of a date: `YYYY-MM-DD.txt`, the date as `%Y-%m-%d`
/// writes it (month and day with two digits at least).
pub open spec fn cache_file_name_text(year: int, month: nat, day: nat) -> Seq<char> {
    year_text(year) + seq!['-'] + zero_padded(decimal(month), 2) + seq!['-'] + zero_padded(
        decimal(day),
        2,
    ) + seq!['.', 't', 'x', 't']
}

fn digit(d: u32) -> (c: char)
    requires
        d < 10,
    ensures
        c == digit_char(d as int),
{
    if d == 0 {
        '0'
    } else if d == 1 {
        '1'
    } else if d == 2 {
        '2'
    } else if d == 3 {
        '3'
    } else if d == 4 {
        '4'
    } else if d == 5 {
        '5'
    } else if d == 6 {
        '6'
    } else if d == 7 {
        '7'
    } else if d == 8 {
        '8'
    } else {
        '9'
    }
}

/// Appends the decimal digits of `n`, zero-padded to `width`.
fn push_number(out: &mut Vec<char>, n: u32, width: usize)
    ensures
        final(out)@ == old(out)@ + zero_padded(decimal(n as nat), width as nat),
{
    let mut q = n;
    let mut acc: Vec<char> = Vec::new();
    while q >= 10
        invariant
            decimal(n as nat) == decimal(q as nat) + acc@,
        decreases q,
    {
        let c = digit(q % 10);
        let ghost before = acc@;
        acc.insert(0, c);
        assert(acc@ =~= seq![c] + before);
        assert(decimal(q as nat) == decimal((q / 10) as nat).push(c));
        assert(decimal((q / 10) as nat).push(c) + before =~= decimal((q / 10) as nat) + acc@);
        q = q / 10;
    }
    let c = digit(q);
    let ghost before = acc@;
    acc.insert(0, c);
    assert(acc@ =~= seq![c] + before);
    assert(acc@ =~= decimal(n as nat));
    let mut k = acc.len();
    let ghost start = out@;
    while k < width
        invariant
            k <= width || k == acc.len(),
            acc.len() <= k,
            out@ == start + Seq::new((k - acc.len()) as nat, |i: int| '0'),
        decreases width - k,
    {
        out.push('0');
        assert(out@ =~= start + Seq::new((k + 1 - acc.len()) as nat, |i: int| '0'));
        k = k + 1;
    }
    let ghost zeros = out@;
    let mut j: usize = 0;
    while j < acc.len()
        invariant
            j <= acc.len(),
            out@ == zeros + acc@.take(j as int),
        decreases acc.len() - j,
    {
        out.push(acc[j]);
        assert(acc@.take(j + 1) =~= acc@.take(j as int).push(acc@[j as int]));
        j = j + 1;
    }
    assert(acc@.take(acc.len() as int) =~= acc@);
    if acc.len() >= width {
        assert(zeros =~= start);
    } else {
        assert(k == width);
    }
    assert(out@ =~= start + zero_padded(decimal(n as nat), width as nat));
}

/// The name of the cache file for the date `year`-`month`-`day`; see
/// [`cache_file_name_text`].
pub fn cache_file_name(year: i32, month: u32, day: u32) -> (r: String)
    ensures
        r@ == cache_file_name_text(year as int, month as nat, day as nat),
{
    let mut out: Vec<char> = Vec::new();
    if 0 <= year && year <= 9999 {
        push_number(&mut out, year as u32, 4);
    } else if year > 9999 {
        out.push('+');
        push_number(&mut out, year as u32, 4);
    } else {
        out.push('-');
        let magnitude = (0i64 - year as i64) as u32;
        push_number(&mut out, magnitude, 4);
    }
    assert(out@ =~= year_text(year as int));
    out.push('-');
    push_number(&mut out, month, 2);
    out.push('-');
    push_number(&mut out, day, 2);
    out.push('.');
    out.push('t');
    out.push('x');
    out.push('t');
    assert(out@ =~= cache_file_name_text(year as int, month as nat, day as nat));
    string_of(&out)
}

} // verus!
