//! What holds of parsing across inputs: the line endings, a final line
//! ending, and blank lines around the block do not change the result; and a
//! body that was cached after a fetch reads back as the same daily word.

use vstd::prelude::*;
use crate::chars::{is_blank, is_ws};
use crate::lines::{join_lines, lemma_split_lf_nonempty, lines, split_lf, strip_cr};
use crate::quote::{content_lines, drop_leading_blank, drop_trailing_blank, parse_spec, LINK_PREFIX};
use crate::fetch::offline_quote;
use crate::display::{
    br_closed, br_open, br_spaced, detail_suffix, display_text, quote_block, remove_all,
    strip_breaks,
};

verus! {

/// `s` with each `\n` written as `\r\n`.
pub open spec fn crlf(s: Seq<char>) -> Seq<char>
    decreases s.len(),
{
    if s.len() == 0 {
        Seq::<char>::empty()
    } else if s.last() == '\n' {
        crlf(s.drop_last()) + seq!['\r', '\n']
    } else {
        crlf(s.drop_last()).push(s.last())
    }
}

/// Splitting a concatenation at `\n`: the last piece of `a` and the first
/// piece of `b` join.
pub proof fn lemma_split_lf_append(a: Seq<char>, b: Seq<char>)
    ensures
        split_lf(a + b) == split_lf(a).drop_last() + seq![split_lf(a).last() + split_lf(b)[0]]
            + split_lf(b).drop_first(),
    decreases b.len(),
{
    lemma_split_lf_nonempty(a);
    lemma_split_lf_nonempty(b);
    let pa = split_lf(a);
    if b.len() == 0 {
        assert(a + b =~= a);
        assert(pa.last() + split_lf(b)[0] =~= pa.last());
        assert(pa.drop_last() + seq![pa.last()] =~= pa);
        assert(split_lf(b).drop_first() =~= Seq::<Seq<char>>::empty());
        assert(pa.drop_last() + seq![pa.last() + split_lf(b)[0]] + split_lf(b).drop_first() =~= pa);
    } else {
        let b1 = b.drop_last();
        let c = b.last();
        lemma_split_lf_append(a, b1);
        lemma_split_lf_nonempty(b1);
        assert((a + b).drop_last() =~= a + b1);
        assert((a + b).last() == c);
        let x = split_lf(a + b1);
        let pb1 = split_lf(b1);
        let pb = split_lf(b);
        if c == '\n' {
            assert(split_lf(a + b) == x.push(Seq::<char>::empty()));
            assert(pb == pb1.push(Seq::<char>::empty()));
            assert(pb[0] == pb1[0]);
            assert(pb.drop_first() =~= pb1.drop_first().push(Seq::<char>::empty()));
            assert(split_lf(a + b) =~= pa.drop_last() + seq![pa.last() + pb[0]] + pb.drop_first());
        } else {
            assert(split_lf(a + b) == x.update(x.len() - 1, x.last().push(c)));
            assert(pb == pb1.update(pb1.len() - 1, pb1.last().push(c)));
            if pb1.len() == 1 {
                assert(pb[0] == pb1[0].push(c));
                assert((pa.last() + pb1[0]).push(c) =~= pa.last() + pb[0]);
                assert(split_lf(a + b) =~= pa.drop_last() + seq![pa.last() + pb[0]] + pb.drop_first());
            } else {
                assert(pb[0] == pb1[0]);
                assert(pb.drop_first() =~= pb1.drop_first().update(
                    pb1.len() - 2,
                    pb1.last().push(c),
                ));
                assert(split_lf(a + b) =~= pa.drop_last() + seq![pa.last() + pb[0]] + pb.drop_first());
            }
        }
    }
}

/// A text without `\n` is a single piece.
pub proof fn lemma_split_lf_single(w: Seq<char>)
    requires
        forall|i: int| 0 <= i < w.len() ==> w[i] != '\n',
    ensures
        split_lf(w) == seq![w],
    decreases w.len(),
{
    if w.len() > 0 {
        lemma_split_lf_single(w.drop_last());
        assert(w.drop_last().push(w.last()) =~= w);
    } else {
        assert(w =~= Seq::<char>::empty());
    }
}

/// Writing `\n` as `\r\n` appends a `\r` to every piece but the last.
proof fn lemma_split_lf_crlf(s: Seq<char>)
    requires
        forall|i: int| 0 <= i < s.len() ==> s[i] != '\r',
    ensures
        split_lf(crlf(s)).len() == split_lf(s).len(),
        forall|j: int|
            0 <= j < split_lf(s).len() - 1 ==> #[trigger] split_lf(crlf(s))[j] == split_lf(s)[j].push(
                '\r',
            ),
        split_lf(crlf(s)).last() == split_lf(s).last(),
        forall|j: int, i: int|
            0 <= j < split_lf(s).len() && 0 <= i < split_lf(s)[j].len() ==> #[trigger] split_lf(
                s,
            )[j][i] != '\r',
    decreases s.len(),
{
    lemma_split_lf_nonempty(s);
    lemma_split_lf_nonempty(crlf(s));
    if s.len() > 0 {
        let s1 = s.drop_last();
        let c = s.last();
        lemma_split_lf_crlf(s1);
        lemma_split_lf_nonempty(s1);
        lemma_split_lf_nonempty(crlf(s1));
        let q = split_lf(crlf(s1));
        let p1 = split_lf(s1);
        let p = split_lf(s);
        if c == '\n' {
            let t = crlf(s1) + seq!['\r'];
            assert((crlf(s1) + seq!['\r', '\n']).drop_last() =~= t);
            assert((crlf(s1) + seq!['\r', '\n']).last() == '\n');
            assert(t.drop_last() =~= crlf(s1));
            assert(split_lf(t) == q.update(q.len() - 1, q.last().push('\r')));
            assert(split_lf(crlf(s)) == split_lf(t).push(Seq::<char>::empty()));
            assert(p == p1.push(Seq::<char>::empty()));
            assert forall|j: int|
                0 <= j < p.len() - 1 implies #[trigger] split_lf(crlf(s))[j] == p[j].push('\r') by {
                if j < p1.len() - 1 {
                    assert(split_lf(crlf(s))[j] == q[j]);
                }
            }
            assert forall|j: int, i: int| 0 <= j < p.len() && 0 <= i < p[j].len() implies #[trigger] p[j][i]
                != '\r' by {
                if j < p1.len() {
                    assert(p[j] == p1[j]);
                }
            }
        } else {
            assert(crlf(s) == crlf(s1).push(c));
            assert(crlf(s).drop_last() =~= crlf(s1));
            assert(split_lf(crlf(s)) == q.update(q.len() - 1, q.last().push(c)));
            assert(p == p1.update(p1.len() - 1, p1.last().push(c)));
            assert forall|j: int|
                0 <= j < p.len() - 1 implies #[trigger] split_lf(crlf(s))[j] == p[j].push('\r') by {
                assert(split_lf(crlf(s))[j] == q[j]);
            }
            assert(c == s[s.len() - 1]);
            assert forall|j: int, i: int| 0 <= j < p.len() && 0 <= i < p[j].len() implies #[trigger] p[j][i]
                != '\r' by {
                if j < p1.len() - 1 {
                    assert(p[j] == p1[j]);
                } else if i < p1.last().len() {
                    assert(p[j][i] == p1.last()[i]);
                } else {
                    assert(p[j][i] == c);
                }
            }
        }
    }
}

/// Parsing does not depend on whether lines end in `\n` or in `\r\n`: a text
/// without `\r`, with each `\n` written as `\r\n`, parses as the text itself.
pub proof fn law_crlf_parses_alike(s: Seq<char>)
    requires
        forall|i: int| 0 <= i < s.len() ==> s[i] != '\r',
    ensures
        lines(crlf(s)) == lines(s),
        parse_spec(crlf(s)) == parse_spec(s),
{
    lemma_split_lf_crlf(s);
    lemma_split_lf_nonempty(s);
    let p = split_lf(s);
    let q = split_lf(crlf(s));
    let k = p.len() - 1;
    assert forall|j: int| 0 <= j < k implies strip_cr(#[trigger] q[j]) == strip_cr(p[j]) by {
        assert(q[j] == p[j].push('\r'));
        assert(q[j].drop_last() =~= p[j]);
        if p[j].len() > 0 {
            assert(p[j][p[j].len() - 1] != '\r');
        }
    }
    assert(q.take(k).map_values(|l: Seq<char>| strip_cr(l)) =~= p.take(k).map_values(
        |l: Seq<char>| strip_cr(l),
    ));
    assert(lines(crlf(s)) =~= lines(s));
}

/// Taking off a `\r` keeps a blank line blank and a non-blank line non-blank.
pub proof fn lemma_strip_cr_blank(l: Seq<char>)
    ensures
        is_blank(strip_cr(l)) == is_blank(l),
{
    if l.len() > 0 && l.last() == '\r' {
        assert(is_ws('\r'));
        if is_blank(strip_cr(l)) {
            assert forall|i: int| 0 <= i < l.len() implies #[trigger] is_ws(l[i]) by {
                if i < l.len() - 1 {
                    assert(l[i] == strip_cr(l)[i]);
                }
            }
        }
        if is_blank(l) {
            assert forall|i: int| 0 <= i < strip_cr(l).len() implies #[trigger] is_ws(strip_cr(l)[i]) by {
                assert(l[i] == strip_cr(l)[i]);
            }
        }
    }
}

/// The lines of `w`, `\n`, `s` (where `w` has no `\n`): `w` (less a final
/// `\r`), then the lines of `s`.
proof fn lemma_lines_after_line(w: Seq<char>, s: Seq<char>)
    requires
        forall|i: int| 0 <= i < w.len() ==> w[i] != '\n',
    ensures
        lines(w + seq!['\n'] + s) == seq![strip_cr(w)] + lines(s),
{
    let a = w + seq!['\n'];
    lemma_split_lf_single(w);
    assert(a.drop_last() =~= w);
    assert(split_lf(a) == seq![w].push(Seq::<char>::empty()));
    lemma_split_lf_append(a, s);
    lemma_split_lf_nonempty(s);
    let ps = split_lf(s);
    let p = split_lf(a + s);
    assert(split_lf(a).drop_last() =~= seq![w]);
    assert(split_lf(a).last() + ps[0] =~= ps[0]);
    assert(seq![ps[0]] + ps.drop_first() =~= ps);
    assert(p =~= seq![w] + ps);
    let k = ps.len() - 1;
    assert(p.len() - 1 == k + 1);
    assert(p.take(k + 1) =~= seq![w] + ps.take(k));
    assert(p.take(k + 1).map_values(|l: Seq<char>| strip_cr(l)) =~= seq![strip_cr(w)] + ps.take(
        k,
    ).map_values(|l: Seq<char>| strip_cr(l)));
    assert(p[k + 1] == ps[k]);
    assert(lines(a + s) =~= seq![strip_cr(w)] + lines(s));
}

/// A blank line before the block does not change the result: `w`, `\n`, `s`
/// parses as `s` where `w` is blank and has no `\n`.
pub proof fn law_leading_blank_line(w: Seq<char>, s: Seq<char>)
    requires
        is_blank(w),
        forall|i: int| 0 <= i < w.len() ==> w[i] != '\n',
    ensures
        parse_spec(w + seq!['\n'] + s) == parse_spec(s),
{
    lemma_lines_after_line(w, s);
    lemma_strip_cr_blank(w);
    let l = seq![strip_cr(w)] + lines(s);
    assert(l.drop_first() =~= lines(s));
    assert(drop_leading_blank(l) == drop_leading_blank(lines(s)));
    assert(content_lines(w + seq!['\n'] + s) == content_lines(s));
}

/// A blank last line does not change what the other lines are cleared to.
proof fn lemma_content_push_blank(l: Seq<Seq<char>>, w: Seq<char>)
    requires
        is_blank(w),
    ensures
        drop_trailing_blank(drop_leading_blank(l.push(w))) == drop_trailing_blank(
            drop_leading_blank(l),
        ),
    decreases l.len(),
{
    if l.len() == 0 {
        assert(l.push(w).drop_first() =~= Seq::<Seq<char>>::empty());
        assert(drop_leading_blank(l.push(w)) == drop_leading_blank(Seq::<Seq<char>>::empty()));
    } else if is_blank(l[0]) {
        assert(l.push(w).drop_first() =~= l.drop_first().push(w));
        lemma_content_push_blank(l.drop_first(), w);
    } else {
        assert(l.push(w)[0] == l[0]);
        assert(l.push(w).drop_last() =~= l);
    }
}

/// The lines of `s`, `\n`, `w` (where `w` has no `\n`): those of `s`
/// followed by `\n`, then `w` where it is not empty.
proof fn lemma_lines_before_line(s: Seq<char>, w: Seq<char>)
    requires
        forall|i: int| 0 <= i < w.len() ==> w[i] != '\n',
    ensures
        lines(s + seq!['\n'] + w) == lines(s + seq!['\n']) + if w.len() == 0 {
            Seq::<Seq<char>>::empty()
        } else {
            seq![w]
        },
{
    let a = s + seq!['\n'];
    lemma_split_lf_single(w);
    lemma_split_lf_nonempty(s);
    assert(a.drop_last() =~= s);
    let ps = split_lf(s);
    assert(split_lf(a) == ps.push(Seq::<char>::empty()));
    lemma_split_lf_append(a, w);
    assert(split_lf(a).drop_last() =~= ps);
    assert(split_lf(a).last() + w =~= w);
    assert(split_lf(a + w) =~= ps.push(w));
    let k = ps.len() as int;
    assert(ps.push(w).take(k) =~= ps);
    assert(split_lf(a).take(k) =~= ps);
    assert(lines(a) =~= ps.map_values(|l: Seq<char>| strip_cr(l)));
}

/// A blank line after the block does not change the result: `s`, `\n`, `w`
/// parses as `s`, `\n` where `w` is blank and has no `\n`.
pub proof fn law_trailing_blank_line(s: Seq<char>, w: Seq<char>)
    requires
        is_blank(w),
        forall|i: int| 0 <= i < w.len() ==> w[i] != '\n',
    ensures
        parse_spec(s + seq!['\n'] + w) == parse_spec(s + seq!['\n']),
{
    lemma_lines_before_line(s, w);
    let l = lines(s + seq!['\n']);
    if w.len() == 0 {
        assert(l + Seq::<Seq<char>>::empty() =~= l);
    } else {
        assert(l + seq![w] =~= l.push(w));
        lemma_content_push_blank(l, w);
    }
    assert(content_lines(s + seq!['\n'] + w) == content_lines(s + seq!['\n']));
}

/// Where the leading blank lines end.
proof fn lemma_leading_index(l: Seq<Seq<char>>) -> (a: int)
    ensures
        0 <= a <= l.len(),
        drop_leading_blank(l) == l.skip(a),
        forall|j: int| 0 <= j < a ==> is_blank(#[trigger] l[j]),
        a < l.len() ==> !is_blank(l[a]),
    decreases l.len(),
{
    if l.len() > 0 && is_blank(l[0]) {
        let a1 = lemma_leading_index(l.drop_first());
        assert(l.drop_first().skip(a1) =~= l.skip(a1 + 1));
        assert forall|j: int| 0 <= j < a1 + 1 implies is_blank(#[trigger] l[j]) by {
            if j > 0 {
                assert(l[j] == l.drop_first()[j - 1]);
            }
        }
        a1 + 1
    } else {
        assert(l.skip(0) =~= l);
        0
    }
}

/// Where the trailing blank lines begin.
proof fn lemma_trailing_index(l: Seq<Seq<char>>) -> (b: int)
    ensures
        0 <= b <= l.len(),
        drop_trailing_blank(l) == l.take(b),
        forall|j: int| b <= j < l.len() ==> is_blank(#[trigger] l[j]),
        b > 0 ==> !is_blank(l[b - 1]),
    decreases l.len(),
{
    if l.len() > 0 && is_blank(l.last()) {
        let b1 = lemma_trailing_index(l.drop_last());
        assert(l.drop_last().take(b1) =~= l.take(b1));
        assert forall|j: int| b1 <= j < l.len() implies is_blank(#[trigger] l[j]) by {
            if j < l.len() - 1 {
                assert(l[j] == l.drop_last()[j]);
            }
        }
        b1
    } else {
        assert(l.take(l.len() as int) =~= l);
        l.len() as int
    }
}

/// Two lists of lines with the same blank lines and the same lines but
/// perhaps the last one are cleared to blocks that agree but perhaps in their
/// last line.
proof fn lemma_content_same_shape(l1: Seq<Seq<char>>, l2: Seq<Seq<char>>) -> (ab: (int, int))
    requires
        l1.len() == l2.len(),
        forall|j: int| 0 <= j < l1.len() ==> is_blank(#[trigger] l1[j]) == is_blank(l2[j]),
    ensures
        0 <= ab.0 <= ab.1 <= l1.len(),
        drop_trailing_blank(drop_leading_blank(l1)) == l1.subrange(ab.0, ab.1),
        drop_trailing_blank(drop_leading_blank(l2)) == l2.subrange(ab.0, ab.1),
{
    let a1 = lemma_leading_index(l1);
    let a2 = lemma_leading_index(l2);
    if a1 < a2 {
        assert(is_blank(l2[a1]));
        assert(is_blank(l1[a1]));
    }
    if a2 < a1 {
        assert(is_blank(l1[a2]));
        assert(is_blank(l2[a2]));
    }
    let a = a1;
    let m1 = l1.skip(a);
    let m2 = l2.skip(a);
    let b1 = lemma_trailing_index(m1);
    let b2 = lemma_trailing_index(m2);
    if b1 < b2 {
        assert(m2[b2 - 1] == l2[a + b2 - 1]);
        assert(m1[b2 - 1] == l1[a + b2 - 1]);
        assert(is_blank(m1[b2 - 1]));
    }
    if b2 < b1 {
        assert(m2[b1 - 1] == l2[a + b1 - 1]);
        assert(m1[b1 - 1] == l1[a + b1 - 1]);
        assert(is_blank(m2[b1 - 1]));
    }
    assert(m1.take(b1) =~= l1.subrange(a, a + b1));
    assert(m2.take(b1) =~= l2.subrange(a, a + b1));
    (a, a + b1)
}

/// Texts whose lines have the same blank lines and agree but perhaps in the
/// last line parse alike.
proof fn lemma_parse_same_but_last(t1: Seq<char>, t2: Seq<char>)
    requires
        lines(t1).len() == lines(t2).len(),
        forall|j: int| 0 <= j < lines(t1).len() ==> is_blank(#[trigger] lines(t1)[j]) == is_blank(lines(t2)[j]),
        forall|j: int| 0 <= j < lines(t1).len() - 1 ==> #[trigger] lines(t1)[j] == lines(t2)[j],
    ensures
        parse_spec(t1) == parse_spec(t2),
{
    let l1 = lines(t1);
    let l2 = lines(t2);
    let (a, b) = lemma_content_same_shape(l1, l2);
    let c1 = content_lines(t1);
    let c2 = content_lines(t2);
    if b - a >= 3 {
        assert(c1[c1.len() - 2] == l1[b - 2]);
        assert(c2[c2.len() - 2] == l2[b - 2]);
        assert(c1.take(c1.len() - 2) =~= c2.take(c2.len() - 2)) by {
            assert forall|j: int| 0 <= j < c1.len() - 2 implies #[trigger] c1.take(c1.len() - 2)[j] == c2.take(
                c2.len() - 2,
            )[j] by {
                assert(c1[j] == l1[a + j]);
                assert(c2[j] == l2[a + j]);
            }
        }
    }
}

/// A final line ending does not change the result: a text that does not end
/// in `\n` parses as the text followed by `\n`.
pub proof fn law_final_newline(s: Seq<char>)
    requires
        s.len() > 0,
        s.last() != '\n',
    ensures
        parse_spec(s + seq!['\n']) == parse_spec(s),
{
    let t = s + seq!['\n'];
    lemma_split_lf_nonempty(s);
    let ps = split_lf(s);
    let k = ps.len() - 1;
    assert(t.drop_last() =~= s);
    assert(split_lf(t) == ps.push(Seq::<char>::empty()));
    assert(ps[k].len() > 0) by {
        lemma_split_lf_nonempty(s.drop_last());
    }
    assert(split_lf(t).take(k + 1) =~= ps);
    let l1 = lines(t);
    let l2 = lines(s);
    assert(l1 =~= ps.map_values(|l: Seq<char>| strip_cr(l)));
    assert(l1.len() == l2.len());
    assert forall|j: int| 0 <= j < l1.len() implies is_blank(#[trigger] l1[j]) == is_blank(l2[j]) by {
        if j == k {
            lemma_strip_cr_blank(ps[k]);
        }
    }
    lemma_parse_same_but_last(t, s);
}

/// Appending `\n` to any text does not change the result.
proof fn lemma_append_lf(s: Seq<char>)
    ensures
        parse_spec(s + seq!['\n']) == parse_spec(s),
{
    let t = s + seq!['\n'];
    if s.len() > 0 && s.last() != '\n' {
        law_final_newline(s);
    } else {
        lemma_split_lf_nonempty(s);
        let p = split_lf(s);
        let k = p.len() - 1;
        assert(t.drop_last() =~= s);
        assert(split_lf(t) == p.push(Seq::<char>::empty()));
        assert(p[k].len() == 0) by {
            if s.len() > 0 {
                lemma_split_lf_nonempty(s.drop_last());
            }
        }
        assert(split_lf(t).take(k + 1) =~= p);
        assert(p.take(k + 1) =~= p.take(k).push(p[k]));
        assert(p.map_values(|l: Seq<char>| strip_cr(l)) =~= p.take(k).map_values(
            |l: Seq<char>| strip_cr(l),
        ).push(strip_cr(p[k])));
        assert(strip_cr(p[k]) =~= Seq::<char>::empty());
        assert(lines(s) =~= p.take(k).map_values(|l: Seq<char>| strip_cr(l)));
        assert(lines(t) =~= lines(s).push(Seq::<char>::empty()));
        lemma_content_push_blank(lines(s), Seq::<char>::empty());
    }
}

/// Appending `\r` to any text does not change the result.
proof fn lemma_append_cr(s: Seq<char>)
    ensures
        parse_spec(s + seq!['\r']) == parse_spec(s),
{
    let t = s + seq!['\r'];
    lemma_split_lf_nonempty(s);
    let p = split_lf(s);
    let k = p.len() - 1;
    assert(t.drop_last() =~= s);
    assert(t.last() == '\r');
    let q = split_lf(t);
    assert(q == p.update(k, p[k].push('\r')));
    assert(q.take(k) =~= p.take(k));
    assert(is_ws('\r'));
    let cr = seq!['\r'];
    if p[k].len() == 0 {
        assert(p[k].push('\r') =~= cr);
        assert(lines(t) =~= lines(s).push(cr));
        assert(is_blank(cr)) by {
            assert forall|i: int| 0 <= i < cr.len() implies #[trigger] is_ws(cr[i]) by {
                assert(cr[i] == '\r');
            }
        }
        lemma_content_push_blank(lines(s), cr);
    } else {
        let l1 = lines(t);
        let l2 = lines(s);
        assert(l1.len() == l2.len());
        assert(l1[k] == p[k].push('\r'));
        assert(l2[k] == p[k]);
        assert(strip_cr(p[k].push('\r')) =~= p[k]);
        lemma_strip_cr_blank(p[k].push('\r'));
        assert forall|j: int| 0 <= j < l1.len() - 1 implies #[trigger] l1[j] == l2[j] by {}
        assert forall|j: int| 0 <= j < l1.len() implies is_blank(#[trigger] l1[j]) == is_blank(l2[j]) by {}
        lemma_parse_same_but_last(t, s);
    }
}

/// `b` is made of line endings only: pieces `\n` and `\r\n`, in any order
/// and number.
pub open spec fn is_line_endings(b: Seq<char>) -> bool
    decreases b.len(),
{
    if b.len() == 0 {
        true
    } else if b[0] == '\n' {
        is_line_endings(b.drop_first())
    } else if b.len() >= 2 && b[0] == '\r' && b[1] == '\n' {
        is_line_endings(b.skip(2))
    } else {
        false
    }
}

/// Line endings after a text do not change the result.
proof fn lemma_trailing_line_endings(s: Seq<char>, b: Seq<char>)
    requires
        is_line_endings(b),
    ensures
        parse_spec(s + b) == parse_spec(s),
    decreases b.len(),
{
    if b.len() == 0 {
        assert(s + b =~= s);
    } else if b[0] == '\n' {
        lemma_trailing_line_endings(s + seq!['\n'], b.drop_first());
        assert(s + seq!['\n'] + b.drop_first() =~= s + b);
        lemma_append_lf(s);
    } else {
        lemma_trailing_line_endings(s + seq!['\r', '\n'], b.skip(2));
        assert(s + seq!['\r', '\n'] + b.skip(2) =~= s + b);
        assert(s + seq!['\r', '\n'] =~= (s + seq!['\r']) + seq!['\n']);
        lemma_append_lf(s + seq!['\r']);
        lemma_append_cr(s);
    }
}

/// Line endings before a text do not change the result.
proof fn lemma_leading_line_endings(b: Seq<char>, s: Seq<char>)
    requires
        is_line_endings(b),
    ensures
        parse_spec(b + s) == parse_spec(s),
    decreases b.len(),
{
    if b.len() == 0 {
        assert(b + s =~= s);
    } else if b[0] == '\n' {
        let rest = b.drop_first();
        lemma_leading_line_endings(rest, s);
        let w = Seq::<char>::empty();
        law_leading_blank_line(w, rest + s);
        assert(w + seq!['\n'] + (rest + s) =~= b + s);
    } else {
        let rest = b.skip(2);
        lemma_leading_line_endings(rest, s);
        let w = seq!['\r'];
        assert(is_ws('\r'));
        assert(is_blank(w)) by {
            assert forall|i: int| 0 <= i < w.len() implies #[trigger] is_ws(w[i]) by {
                assert(w[i] == '\r');
            }
        }
        law_leading_blank_line(w, rest + s);
        assert(w + seq!['\n'] + (rest + s) =~= b + s);
    }
}

/// Blank lines around the block do not change the result: line endings
/// (`\n` or `\r\n`, any number of them) before and after a text leave its
/// parse as it is.
pub proof fn law_outer_line_endings(b1: Seq<char>, s: Seq<char>, b2: Seq<char>)
    requires
        is_line_endings(b1),
        is_line_endings(b2),
    ensures
        parse_spec(b1 + s + b2) == parse_spec(s),
{
    lemma_leading_line_endings(b1, s + b2);
    assert(b1 + s + b2 =~= b1 + (s + b2));
    lemma_trailing_line_endings(s, b2);
}

/// `x` holds no `\n`.
pub open spec fn no_lf(x: Seq<char>) -> bool {
    forall|i: int| 0 <= i < x.len() ==> x[i] != '\n'
}

/// The pieces between the `\n` of a text hold no `\n`.
proof fn lemma_split_lf_no_lf(s: Seq<char>)
    ensures
        forall|j: int| 0 <= j < split_lf(s).len() ==> no_lf(#[trigger] split_lf(s)[j]),
    decreases s.len(),
{
    lemma_split_lf_nonempty(s);
    if s.len() > 0 {
        let s1 = s.drop_last();
        lemma_split_lf_no_lf(s1);
        lemma_split_lf_nonempty(s1);
        let p1 = split_lf(s1);
        let p = split_lf(s);
        if s.last() == '\n' {
            assert(p == p1.push(Seq::<char>::empty()));
            assert forall|j: int| 0 <= j < p.len() implies no_lf(#[trigger] p[j]) by {
                if j < p1.len() {
                    assert(p[j] == p1[j]);
                }
            }
        } else {
            assert(p == p1.update(p1.len() - 1, p1.last().push(s.last())));
            assert forall|j: int| 0 <= j < p.len() implies no_lf(#[trigger] p[j]) by {
                if j < p1.len() - 1 {
                    assert(p[j] == p1[j]);
                } else {
                    assert(no_lf(p1[j]));
                    assert forall|i: int| 0 <= i < p[j].len() implies p[j][i] != '\n' by {
                        if i < p1[j].len() {
                            assert(p[j][i] == p1[j][i]);
                        }
                    }
                }
            }
        }
    }
}

/// No line holds a `\n`.
pub proof fn lemma_lines_no_lf(s: Seq<char>)
    ensures
        forall|j: int| 0 <= j < lines(s).len() ==> no_lf(#[trigger] lines(s)[j]),
{
    lemma_split_lf_no_lf(s);
    lemma_split_lf_nonempty(s);
    let p = split_lf(s);
    let k = p.len() - 1;
    let l = lines(s);
    assert forall|j: int| 0 <= j < l.len() implies no_lf(#[trigger] l[j]) by {
        assert(no_lf(p[j]));
        if j < k {
            assert(l[j] == strip_cr(p[j]));
            assert forall|i: int| 0 <= i < strip_cr(p[j]).len() implies strip_cr(p[j])[i] != '\n' by {
                assert(strip_cr(p[j])[i] == p[j][i]);
            }
        } else {
            assert(l[j] == p[k]);
        }
    }
}

/// Joining with `\n` two non-empty lists of lines.
pub proof fn lemma_join_append(a: Seq<Seq<char>>, b: Seq<Seq<char>>)
    requires
        a.len() >= 1,
        b.len() >= 1,
    ensures
        join_lines(a + b) == join_lines(a) + seq!['\n'] + join_lines(b),
    decreases b.len(),
{
    if b.len() == 1 {
        assert((a + b).drop_last() =~= a);
        assert((a + b).last() == b[0]);
    } else {
        lemma_join_append(a, b.drop_last());
        assert((a + b).drop_last() =~= a + b.drop_last());
        assert((a + b).last() == b.last());
        assert(join_lines(a + b) =~= join_lines(a) + seq!['\n'] + join_lines(b));
    }
}

/// Splitting at `\n` what was joined with `\n` gives back the lines, when
/// none of them holds a `\n`.
pub proof fn lemma_split_join(ls: Seq<Seq<char>>)
    requires
        ls.len() >= 1,
        forall|j: int| 0 <= j < ls.len() ==> no_lf(#[trigger] ls[j]),
    ensures
        split_lf(join_lines(ls)) == ls,
    decreases ls.len(),
{
    if ls.len() == 1 {
        assert(no_lf(ls[0]));
        lemma_split_lf_single(ls[0]);
        assert(seq![ls[0]] =~= ls);
    } else {
        let init = ls.drop_last();
        let w = ls.last();
        assert forall|j: int| 0 <= j < init.len() implies no_lf(#[trigger] init[j]) by {
            assert(init[j] == ls[j]);
        }
        lemma_split_join(init);
        let x = join_lines(init) + seq!['\n'];
        assert(x.drop_last() =~= join_lines(init));
        assert(split_lf(x) == init.push(Seq::<char>::empty()));
        assert(no_lf(ls[ls.len() - 1]));
        lemma_split_lf_single(w);
        lemma_split_lf_append(x, w);
        assert(split_lf(x).drop_last() =~= init);
        assert(split_lf(x).last() + w =~= w);
        assert(seq![w].drop_first() =~= Seq::<Seq<char>>::empty());
        assert(x + w =~= join_lines(ls));
        assert(init + seq![w] =~= ls);
    }
}

/// The block between the outer blank lines is a run of lines of the text.
proof fn lemma_content_range(t: Seq<char>) -> (ab: (int, int))
    ensures
        0 <= ab.0 <= ab.1 <= lines(t).len(),
        content_lines(t) == lines(t).subrange(ab.0, ab.1),
{
    let l = lines(t);
    let a = lemma_leading_index(l);
    let b = lemma_trailing_index(l.skip(a));
    assert(l.skip(a).take(b) =~= l.subrange(a, a + b));
    (a, a + b)
}

/// Parsing succeeds exactly when the block between the outer blank lines
/// has at least three lines and its second-to-last line (the quote id) is
/// not blank, whatever the number of lines.
pub proof fn law_parse_succeeds_iff(t: Seq<char>)
    ensures
        parse_spec(t) is Some <==> (content_lines(t).len() >= 3 && !is_blank(
            content_lines(t)[content_lines(t).len() - 2],
        )),
{
}

/// The parsed text, split at `\n`, gives back every line of the block but
/// the last two (so it has two lines fewer than the block); the link is the
/// link prefix followed by the quote id.
pub proof fn law_parsed_text_lines(t: Seq<char>)
    requires
        parse_spec(t) is Some,
    ensures
        split_lf((parse_spec(t)->0).0) == content_lines(t).take(content_lines(t).len() - 2),
        split_lf((parse_spec(t)->0).0).len() == content_lines(t).len() - 2,
        (parse_spec(t)->0).1 == LINK_PREFIX@ + content_lines(t)[content_lines(t).len() - 2],
{
    let c = content_lines(t);
    let (a, b) = lemma_content_range(t);
    lemma_lines_no_lf(t);
    let body = c.take(c.len() - 2);
    assert forall|j: int| 0 <= j < body.len() implies no_lf(#[trigger] body[j]) by {
        assert(body[j] == lines(t)[a + j]);
    }
    lemma_split_join(body);
}

/// Removing a pattern never brings in a `\n`.
proof fn lemma_remove_all_no_lf(x: Seq<char>, pat: Seq<char>)
    requires
        no_lf(x),
    ensures
        no_lf(remove_all(x, pat)),
    decreases x.len(),
{
    if x.len() > 0 {
        if 0 < pat.len() <= x.len() && x.take(pat.len() as int) == pat {
            let rest = x.skip(pat.len() as int);
            assert forall|i: int| 0 <= i < rest.len() implies rest[i] != '\n' by {
                assert(rest[i] == x[i + pat.len()]);
            }
            lemma_remove_all_no_lf(rest, pat);
        } else {
            let rest = x.drop_first();
            assert forall|i: int| 0 <= i < rest.len() implies rest[i] != '\n' by {
                assert(rest[i] == x[i + 1]);
            }
            lemma_remove_all_no_lf(rest, pat);
            let r = seq![x[0]] + remove_all(rest, pat);
            assert forall|i: int| 0 <= i < r.len() implies r[i] != '\n' by {
                if i > 0 {
                    assert(r[i] == remove_all(rest, pat)[i - 1]);
                }
            }
        }
    }
}

proof fn lemma_strip_breaks_no_lf(x: Seq<char>)
    requires
        no_lf(x),
    ensures
        no_lf(strip_breaks(x)),
{
    lemma_remove_all_no_lf(x, crate::display::br_spaced());
    lemma_remove_all_no_lf(remove_all(x, crate::display::br_spaced()), crate::display::br_closed());
    lemma_remove_all_no_lf(
        remove_all(remove_all(x, crate::display::br_spaced()), crate::display::br_closed()),
        crate::display::br_open(),
    );
}

/// `prefix` followed by a line with its HTML breaks taken out.
pub open spec fn prefixed_stripped(prefix: Seq<char>, l: Seq<char>) -> Seq<char> {
    prefix + strip_breaks(l)
}

proof fn lemma_prefixed_no_lf(prefix: Seq<char>, l: Seq<char>)
    requires
        no_lf(prefix),
        no_lf(l),
    ensures
        no_lf(prefixed_stripped(prefix, l)),
{
    lemma_strip_breaks_no_lf(l);
    let r = prefixed_stripped(prefix, l);
    assert forall|i: int| 0 <= i < r.len() implies r[i] != '\n' by {
        if i >= prefix.len() {
            assert(r[i] == strip_breaks(l)[i - prefix.len()]);
        } else {
            assert(r[i] == prefix[i]);
        }
    }
}

/// The quoted lines of the display.
pub open spec fn quoted_lines(qs: Seq<Seq<char>>) -> Seq<Seq<char>> {
    Seq::new(qs.len(), |j: int| prefixed_stripped(seq!['>', ' '], qs[j]))
}

/// A block of quoted lines is the quoted lines joined with `\n`, then `\n`.
proof fn lemma_quote_block_join(qs: Seq<Seq<char>>)
    requires
        qs.len() >= 1,
    ensures
        quote_block(qs) == join_lines(quoted_lines(qs)) + seq!['\n'],
    decreases qs.len(),
{
    let init = qs.drop_last();
    if qs.len() == 1 {
        assert(init =~= Seq::<Seq<char>>::empty());
        assert(quote_block(init) =~= Seq::<char>::empty());
        assert(quoted_lines(qs).len() == 1);
        assert(quoted_lines(qs)[0] == prefixed_stripped(seq!['>', ' '], qs[0]));
        assert(join_lines(quoted_lines(qs)) == quoted_lines(qs)[0]);
        assert(qs.last() == qs[0]);
        assert(quote_block(qs) =~= join_lines(quoted_lines(qs)) + seq!['\n']);
    } else {
        lemma_quote_block_join(init);
        assert(quoted_lines(qs).drop_last() =~= quoted_lines(init));
        assert(quoted_lines(qs).last() == prefixed_stripped(seq!['>', ' '], qs.last()));
        assert(quote_block(qs) =~= join_lines(quoted_lines(qs)) + seq!['\n']);
    }
}

/// The lines of the display of a text with at least four lines and a title
/// that is not blank: the title, an empty line, one quoted line (`> ` and the
/// line) for each line between the title and the last two, in order, an
/// empty line, `— ` and the author, and the indented details unless they are
/// blank. HTML line breaks are taken out of every part.
pub open spec fn display_lines(t: Seq<char>) -> Seq<Seq<char>> {
    let ls = lines(t);
    let n = ls.len();
    seq![strip_breaks(ls[0]), Seq::<char>::empty()] + quoted_lines(ls.subrange(1, n - 2)) + seq![
        Seq::<char>::empty(),
        prefixed_stripped(seq!['\u{2014}', ' '], ls[n - 2]),
    ] + if is_blank(strip_breaks(ls[n - 1])) {
        Seq::<Seq<char>>::empty()
    } else {
        seq![prefixed_stripped(seq![' ', ' '], ls[n - 1])]
    }
}

/// The display of a text of `n >= 4` lines with a title that is not blank,
/// split at `\n`, is its [`display_lines`]: in particular it has exactly
/// `n - 3` quoted lines, one for each line between the title and the author.
#[verifier::rlimit(50)]
#[verifier::spinoff_prover]
pub proof fn law_display_lines(t: Seq<char>)
    requires
        lines(t).len() >= 4,
        !is_blank(strip_breaks(lines(t)[0])),
    ensures
        split_lf(display_text(t)) == display_lines(t),
        quoted_lines(lines(t).subrange(1, lines(t).len() - 2)).len() == lines(t).len() - 3,
{
    let ls = lines(t);
    let n = ls.len();
    lemma_lines_no_lf(t);
    let e = Seq::<char>::empty();
    let title = strip_breaks(ls[0]);
    let qs = ls.subrange(1, n - 2);
    let q = quoted_lines(qs);
    let author = prefixed_stripped(seq!['\u{2014}', ' '], ls[n - 2]);
    let det = strip_breaks(ls[n - 1]);
    let tail: Seq<Seq<char>> = if is_blank(det) {
        Seq::<Seq<char>>::empty()
    } else {
        seq![prefixed_stripped(seq![' ', ' '], ls[n - 1])]
    };
    let head = seq![title, e];
    let mid = seq![e, author];
    lemma_quote_block_join(qs);
    lemma_join_append(head, q);
    lemma_join_append(head + q, mid);
    assert(join_lines(head) =~= title + seq!['\n']) by {
        assert(head.drop_last() =~= seq![title]);
        assert(join_lines(seq![title]) == title);
        assert(head.last() == e);
        assert(join_lines(head) == join_lines(seq![title]) + seq!['\n'] + e);
    }
    assert(join_lines(mid) =~= seq!['\n'] + author) by {
        assert(mid.drop_last() =~= seq![e]);
        assert(join_lines(seq![e]) == e);
        assert(mid.last() == author);
        assert(join_lines(mid) == join_lines(seq![e]) + seq!['\n'] + author);
    }
    let all = head + q + mid + tail;
    if is_blank(det) {
        assert(all =~= head + q + mid);
        assert(detail_suffix(det) =~= e);
    } else {
        lemma_join_append(head + q + mid, tail);
        assert(join_lines(tail) == prefixed_stripped(seq![' ', ' '], ls[n - 1]));
    }
    assert(display_text(t) =~= join_lines(all));
    assert(all =~= display_lines(t));
    assert(no_lf(seq!['>', ' ']));
    assert(no_lf(seq!['\u{2014}', ' ']));
    assert(no_lf(seq![' ', ' ']));
    assert(no_lf(e));
    assert forall|j: int| 0 <= j < all.len() implies no_lf(#[trigger] all[j]) by {
        if j == 0 {
            lemma_strip_breaks_no_lf(ls[0]);
        } else if 2 <= j < 2 + q.len() {
            assert(all[j] == q[j - 2]);
            assert(qs[j - 2] == ls[j - 1]);
            lemma_prefixed_no_lf(seq!['>', ' '], ls[j - 1]);
        } else if j == 3 + q.len() {
            lemma_prefixed_no_lf(seq!['\u{2014}', ' '], ls[n - 2]);
        } else if j == 4 + q.len() {
            lemma_prefixed_no_lf(seq![' ', ' '], ls[n - 1]);
        }
    }
    lemma_split_join(all);
}

/// A match of the pattern at the start is removed, and the removal goes on
/// over the rest: `remove_all(pat + s) == remove_all(s)`.
pub proof fn law_remove_match_then_continue(pat: Seq<char>, s: Seq<char>)
    requires
        pat.len() > 0,
    ensures
        remove_all(pat + s, pat) == remove_all(s, pat),
{
    let x = pat + s;
    assert(x.take(pat.len() as int) =~= pat);
    assert(x.skip(pat.len() as int) =~= s);
}

/// Text without the first character of the pattern passes through the
/// removal unchanged, and does not change how what follows is treated:
/// `remove_all(a + s) == a + remove_all(s)`.
pub proof fn law_remove_keeps_plain_text(a: Seq<char>, s: Seq<char>, pat: Seq<char>)
    requires
        pat.len() > 0,
        forall|i: int| 0 <= i < a.len() ==> a[i] != pat[0],
    ensures
        remove_all(a + s, pat) == a + remove_all(s, pat),
    decreases a.len(),
{
    if a.len() > 0 {
        let x = a + s;
        assert(x[0] == a[0]);
        if pat.len() <= x.len() {
            assert(x.take(pat.len() as int)[0] != pat[0]);
        }
        let rest = a.drop_first();
        assert forall|i: int| 0 <= i < rest.len() implies rest[i] != pat[0] by {
            assert(rest[i] == a[i + 1]);
        }
        law_remove_keeps_plain_text(rest, s, pat);
        assert(x.drop_first() =~= rest + s);
        assert(seq![a[0]] + (rest + remove_all(s, pat)) =~= a + remove_all(s, pat));
    } else {
        assert(a + s =~= s);
        assert(a + remove_all(s, pat) =~= remove_all(s, pat));
    }
}

/// Every occurrence is removed: between texts without the first character of
/// the pattern, one occurrence goes and the rest stays, so that
/// `remove_all(a + pat + b) == a + b`; in particular text without that
/// character is left as it is.
pub proof fn law_remove_between_plain_text(a: Seq<char>, b: Seq<char>, pat: Seq<char>)
    requires
        pat.len() > 0,
        forall|i: int| 0 <= i < a.len() ==> a[i] != pat[0],
        forall|i: int| 0 <= i < b.len() ==> b[i] != pat[0],
    ensures
        remove_all(a + pat + b, pat) == a + b,
        remove_all(b, pat) == b,
{
    let e = Seq::<char>::empty();
    law_remove_keeps_plain_text(b, e, pat);
    assert(b + e =~= b);
    assert(remove_all(e, pat) =~= e);
    law_remove_match_then_continue(pat, b);
    law_remove_keeps_plain_text(a, pat + b, pat);
    assert(a + pat + b =~= a + (pat + b));
}

/// Text without `<`.
pub open spec fn no_tag_start(x: Seq<char>) -> bool {
    forall|i: int| 0 <= i < x.len() ==> x[i] != '<'
}

/// Where the text does not start with the pattern, its first character stays.
proof fn lemma_remove_no_match_at_front(s: Seq<char>, pat: Seq<char>)
    requires
        s.len() > 0,
        pat.len() > 0,
        !(pat.len() <= s.len() && s.take(pat.len() as int) == pat),
    ensures
        remove_all(s, pat) == seq![s[0]] + remove_all(s.drop_first(), pat),
{
}

/// A tag `<...` whose first character is the only `<` in it, before text
/// without `<`, is kept by the removal of another pattern that starts with
/// `<` and does not match at its start.
proof fn lemma_remove_other_tag(tag: Seq<char>, b: Seq<char>, pat: Seq<char>)
    requires
        tag.len() > 0,
        tag[0] == '<',
        no_tag_start(tag.drop_first()),
        no_tag_start(b),
        pat.len() > 0,
        pat[0] == '<',
        !(pat.len() <= (tag + b).len() && (tag + b).take(pat.len() as int) == pat),
    ensures
        remove_all(tag + b, pat) == tag + b,
{
    lemma_remove_no_match_at_front(tag + b, pat);
    let rest = tag.drop_first() + b;
    assert((tag + b).drop_first() =~= rest);
    assert forall|i: int| 0 <= i < rest.len() implies rest[i] != pat[0] by {
        if i < tag.len() - 1 {
            assert(rest[i] == tag.drop_first()[i]);
        } else {
            assert(rest[i] == b[i - (tag.len() - 1)]);
        }
    }
    law_remove_between_plain_text(rest, Seq::<char>::empty(), pat);
    law_remove_keeps_plain_text(rest, Seq::<char>::empty(), pat);
    assert(rest + Seq::<char>::empty() =~= rest);
    assert(remove_all(Seq::<char>::empty(), pat) =~= Seq::<char>::empty());
    assert(seq![(tag + b)[0]] + rest =~= tag + b);
}

/// Each of the line breaks `<br />`, `<br/>` and `<br>` is taken out of a
/// text that has no other `<`: `strip_breaks(a + tag + b) == a + b`; and a
/// text without `<` is left as it is.
pub proof fn law_strip_breaks_removes_each_tag(a: Seq<char>, tag: Seq<char>, b: Seq<char>)
    requires
        tag == br_spaced() || tag == br_closed() || tag == br_open(),
        no_tag_start(a),
        no_tag_start(b),
    ensures
        strip_breaks(a + tag + b) == a + b,
        strip_breaks(a) == a,
{
    let p1 = br_spaced();
    let p2 = br_closed();
    let p3 = br_open();
    let e = Seq::<char>::empty();
    assert(p1[0] == '<' && p2[0] == '<' && p3[0] == '<');
    // text without `<` passes each removal unchanged
    law_remove_between_plain_text(e, a, p1);
    law_remove_between_plain_text(e, a, p2);
    law_remove_between_plain_text(e, a, p3);
    law_remove_between_plain_text(e, a + b, p1);
    law_remove_between_plain_text(e, a + b, p2);
    law_remove_between_plain_text(e, a + b, p3);
    assert forall|i: int| 0 <= i < (a + b).len() implies (a + b)[i] != '<' by {
        if i < a.len() {
            assert((a + b)[i] == a[i]);
        } else {
            assert((a + b)[i] == b[i - a.len()]);
        }
    }
    assert(no_tag_start(tag.drop_first()));
    if tag == p1 {
        law_remove_between_plain_text(a, b, p1);
    } else {
        let x = a + tag + b;
        assert(x =~= a + (tag + b));
        law_remove_keeps_plain_text(a, tag + b, p1);
        assert((tag + b).take(p1.len() as int) != p1 || p1.len() > (tag + b).len()) by {
            if p1.len() <= (tag + b).len() {
                assert((tag + b).take(p1.len() as int)[3] != p1[3]);
            }
        }
        lemma_remove_other_tag(tag, b, p1);
        if tag == p2 {
            law_remove_between_plain_text(a, b, p2);
        } else {
            law_remove_keeps_plain_text(a, tag + b, p2);
            assert((tag + b).take(p2.len() as int) != p2 || p2.len() > (tag + b).len()) by {
                if p2.len() <= (tag + b).len() {
                    assert((tag + b).take(p2.len() as int)[3] != p2[3]);
                }
            }
            lemma_remove_other_tag(tag, b, p2);
            law_remove_between_plain_text(a, b, p3);
        }
    }
}

/// A text of fewer than four lines, or one whose title is blank, is shown as
/// it is, with its HTML line breaks taken out.
pub proof fn law_display_plain_text(t: Seq<char>)
    requires
        lines(t).len() < 4 || is_blank(strip_breaks(lines(t)[0])),
    ensures
        display_text(t) == strip_breaks(t),
{
}

/// With the network down and no usable cache for today (none, or one that
/// does not parse), the answer is the offline quote with an empty link; an
/// answer from a cache that parses always has a link (the prefix at least).
pub proof fn law_offline_answer(cached: Option<Seq<char>>)
    ensures
        (cached is None || parse_spec(cached->0) is None) ==> offline_quote(cached) == (
            crate::quote::OFFLINE_FALLBACK_QUOTE@,
            Seq::<char>::empty(),
        ),
        (cached is Some && parse_spec(cached->0) is Some) ==> offline_quote(cached).1.len() >= LINK_PREFIX@.len(),
{
}

/// What a successful fetch stores as today's cache (the fetched body, see
/// `after_fetch`) gives back the same daily word when the network later
/// fails and the cache is read (see `after_cache_read`).
pub proof fn law_cached_fetch_reads_back(t: Seq<char>)
    requires
        parse_spec(t) is Some,
    ensures
        offline_quote(Some(t)) == parse_spec(t)->0,
{
}

} // verus!
