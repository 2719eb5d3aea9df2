//! The line structure of a text, as `str::lines` sees it: lines end at `\n`
//! or `\r\n`, the last line ending is optional, and a bare `\r` stays in its
//! line.

use vstd::prelude::*;

verus! {

/// The pieces of `s` between the `\n` characters (always one more than the
/// number of `\n`).
pub open spec fn split_lf(s: Seq<char>) -> Seq<Seq<char>>
    decreases s.len(),
{
    if s.len() == 0 {
        seq![Seq::<char>::empty()]
    } else {
        let p = split_lf(s.drop_last());
        if s.last() == '\n' {
            p.push(Seq::<char>::empty())
        } else {
            p.update(p.len() - 1, p.last().push(s.last()))
        }
    }
}

/// A piece that was ended by `\n` loses one `\r` before it.
pub open spec fn strip_cr(l: Seq<char>) -> Seq<char> {
    if l.len() > 0 && l.last() == '\r' {
        l.drop_last()
    } else {
        l
    }
}

/// The lines of `s`: every piece ended by `\n`, without its `\r\n` or `\n`,
/// then the final piece if it is not empty.
pub open spec fn lines(s: Seq<char>) -> Seq<Seq<char>> {
    let p = split_lf(s);
    let k = p.len() - 1;
    p.take(k).map_values(|l: Seq<char>| strip_cr(l)) + if p[k].len() == 0 {
        Seq::<Seq<char>>::empty()
    } else {
        seq![p[k]]
    }
}

/// Lines joined with `\n` between them.
pub open spec fn join_lines(ls: Seq<Seq<char>>) -> Seq<char>
    decreases ls.len(),
{
    if ls.len() == 0 {
        Seq::<char>::empty()
    } else if ls.len() == 1 {
        ls[0]
    } else {
        join_lines(ls.drop_last()) + seq!['\n'] + ls.last()
    }
}

pub proof fn lemma_split_lf_nonempty(s: Seq<char>)
    ensures
        split_lf(s).len() >= 1,
    decreases s.len(),
{
    if s.len() > 0 {
        lemma_split_lf_nonempty(s.drop_last());
    }
}

/// The char ranges `[start, end)` of the lines of `s`.
pub open spec fn ranges_are_lines(s: Seq<char>, r: Seq<(usize, usize)>, ls: Seq<Seq<char>>) -> bool {
    &&& r.len() == ls.len()
    &&& forall|j: int|
        0 <= j < r.len() ==> {
            &&& #[trigger] r[j].0 <= r[j].1 <= s.len()
            &&& s.subrange(r[j].0 as int, r[j].1 as int) == ls[j]
        }
}

/// Finds the lines of `s`, as ranges of character positions.
pub fn line_ranges(s: &Vec<char>) -> (r: Vec<(usize, usize)>)
    ensures
        ranges_are_lines(s@, r@, lines(s@)),
{
    let n = s.len();
    let mut r: Vec<(usize, usize)> = Vec::new();
    let mut cur: usize = 0;
    let mut i: usize = 0;
    assert(s@.take(0) =~= Seq::<char>::empty());
    while i < n
        invariant
            n == s.len(),
            cur <= i <= n,
            split_lf(s@.take(i as int)).len() >= 1,
            r.len() == split_lf(s@.take(i as int)).len() - 1,
            forall|j: int|
                0 <= j < r.len() ==> {
                    &&& #[trigger] r@[j].0 <= r@[j].1 <= n
                    &&& s@.subrange(r@[j].0 as int, r@[j].1 as int) == strip_cr(
                        split_lf(s@.take(i as int))[j],
                    )
                },
            split_lf(s@.take(i as int)).last() == s@.subrange(cur as int, i as int),
        decreases n - i,
    {
        let ghost p = split_lf(s@.take(i as int));
        let ghost r0 = r@;
        let c = s[i];
        assert(s@.take(i + 1).drop_last() =~= s@.take(i as int));
        assert(s@.take(i + 1).last() == c);
        if c == '\n' {
            let end = if i > cur && s[i - 1] == '\r' {
                i - 1
            } else {
                i
            };
            proof {
                let piece = s@.subrange(cur as int, i as int);
                if i > cur && s@[i - 1] == '\r' {
                    assert(piece.last() == '\r');
                    assert(piece.drop_last() =~= s@.subrange(cur as int, end as int));
                } else {
                    assert(piece =~= s@.subrange(cur as int, end as int));
                }
            }
            r.push((cur, end));
            cur = i + 1;
            assert(split_lf(s@.take(i + 1)) == p.push(Seq::<char>::empty()));
            assert forall|j: int| 0 <= j < r.len() implies {
                &&& #[trigger] r@[j].0 <= r@[j].1 <= n
                &&& s@.subrange(r@[j].0 as int, r@[j].1 as int) == strip_cr(
                    split_lf(s@.take(i + 1))[j],
                )
            } by {
                if j < r0.len() {
                    assert(r@[j] == r0[j]);
                    assert(split_lf(s@.take(i + 1))[j] == p[j]);
                }
            }
            assert(s@.subrange(cur as int, i + 1) =~= Seq::<char>::empty());
        } else {
            assert(split_lf(s@.take(i + 1)) == p.update(p.len() - 1, p.last().push(c)));
            assert forall|j: int| 0 <= j < r.len() implies {
                &&& #[trigger] r@[j].0 <= r@[j].1 <= n
                &&& s@.subrange(r@[j].0 as int, r@[j].1 as int) == strip_cr(
                    split_lf(s@.take(i + 1))[j],
                )
            } by {
                assert(r@[j] == r0[j]);
                assert(split_lf(s@.take(i + 1))[j] == p[j]);
            }
            assert(s@.subrange(cur as int, i + 1) =~= s@.subrange(cur as int, i as int).push(c));
        }
        i = i + 1;
        assert(forall|j: int|
            0 <= j < r.len() ==> s@.subrange(#[trigger] r@[j].0 as int, r@[j].1 as int)
                == strip_cr(split_lf(s@.take(i as int))[j]));
    }
    assert(s@.take(n as int) =~= s@);
    let ghost p = split_lf(s@);
    let ghost k = p.len() - 1;
    let ghost r0 = r@;
    if cur < n {
        r.push((cur, n));
    }
    proof {
        let ls = lines(s@);
        let head = p.take(k).map_values(|l: Seq<char>| strip_cr(l));
        assert(ls == head + if p[k].len() == 0 {
            Seq::<Seq<char>>::empty()
        } else {
            seq![p[k]]
        });
        assert(head.len() == k);
        assert forall|j: int| 0 <= j < r.len() implies {
            &&& #[trigger] r@[j].0 <= r@[j].1 <= s@.len()
            &&& s@.subrange(r@[j].0 as int, r@[j].1 as int) == ls[j]
        } by {
            if j < k {
                assert(r@[j] == r0[j]);
                assert(ls[j] == head[j]);
                assert(head[j] == strip_cr(p[j]));
            } else {
                assert(p[k].len() != 0);
                assert(ls[j] == p[k]);
            }
        }
    }
    r
}

} // verus!
