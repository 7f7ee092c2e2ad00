//! Horizontal pad-and-concatenate composition of blocks of lines.

use vstd::prelude::*;
use crate::text::{lines_of_strings, lines_view, strings_of_lines, strings_view};

verus! {

/// The widest line's length, in characters; 0 for no lines.
pub open spec fn width(ls: Seq<Seq<char>>) -> nat
    decreases ls.len(),
{
    if ls.len() == 0 {
        0
    } else {
        let w = width(ls.drop_last());
        if ls.last().len() > w {
            ls.last().len()
        } else {
            w
        }
    }
}

/// The line right-padded with spaces to `w` characters.
pub open spec fn pad(l: Seq<char>, w: nat) -> Seq<char> {
    if l.len() < w {
        l + Seq::new((w - l.len()) as nat, |i: int| ' ')
    } else {
        l
    }
}

/// `t2` set to the right of `t1`: `t1` gets empty lines until it is as tall
/// as `t2`, then each of its first `t2.len()` lines is padded to the width
/// of `t1` and the line of `t2` appended.
pub open spec fn pad_concat(t1: Seq<Seq<char>>, t2: Seq<Seq<char>>) -> Seq<Seq<char>> {
    let h = if t1.len() < t2.len() {
        t2.len()
    } else {
        t1.len()
    };
    let w = width(t1);
    Seq::new(
        h,
        |i: int|
            {
                let l = if i < t1.len() {
                    t1[i]
                } else {
                    Seq::empty()
                };
                if i < t2.len() {
                    pad(l, w) + t2[i]
                } else {
                    l
                }
            },
    )
}

proof fn lemma_width_bounds(ls: Seq<Seq<char>>)
    ensures
        forall|i: int| 0 <= i < ls.len() ==> (#[trigger] ls[i]).len() <= width(ls),
    decreases ls.len(),
{
    if ls.len() > 0 {
        let p = ls.drop_last();
        lemma_width_bounds(p);
        assert forall|i: int| 0 <= i < ls.len() implies (#[trigger] ls[i]).len() <= width(ls) by {
            if i < p.len() {
                assert(ls[i] == p[i]);
            }
        }
    }
}

/// Setting lines to the right pads every target line to the same width
/// first: each of the first `t2.len()` result lines is its target line
/// (or nothing), then spaces up to column `width(t1)`, then the new line;
/// the other target lines stay as they are.
pub proof fn lemma_appended_column_aligned(t1: Seq<Seq<char>>, t2: Seq<Seq<char>>)
    ensures
        pad_concat(t1, t2).len() == if t1.len() < t2.len() { t2.len() } else { t1.len() },
        forall|i: int| 0 <= i < t2.len() ==> {
            let r = #[trigger] pad_concat(t1, t2)[i];
            let l = if i < t1.len() { t1[i] } else { Seq::<char>::empty() };
            &&& r.len() == width(t1) + t2[i].len()
            &&& r.subrange(0, l.len() as int) == l
            &&& forall|k: int| l.len() <= k < width(t1) ==> r[k] == ' '
            &&& r.subrange(width(t1) as int, r.len() as int) == t2[i]
        },
        forall|i: int| t2.len() <= i < t1.len() ==> #[trigger] pad_concat(t1, t2)[i] == t1[i],
{
    lemma_width_bounds(t1);
    let w = width(t1);
    assert forall|i: int| 0 <= i < t2.len() implies {
        let r = #[trigger] pad_concat(t1, t2)[i];
        let l = if i < t1.len() { t1[i] } else { Seq::<char>::empty() };
        &&& r.len() == w + t2[i].len()
        &&& r.subrange(0, l.len() as int) == l
        &&& forall|k: int| l.len() <= k < w ==> r[k] == ' '
        &&& r.subrange(w as int, r.len() as int) == t2[i]
    } by {
        let r = pad_concat(t1, t2)[i];
        let l = if i < t1.len() { t1[i] } else { Seq::<char>::empty() };
        if i < t1.len() {
            assert(t1[i].len() <= w);
        }
        let pl = pad(l, w);
        assert(pl.len() == w);
        assert(r == pl + t2[i]);
        assert(r.subrange(0, l.len() as int) =~= l);
        assert(r.subrange(w as int, r.len() as int) =~= t2[i]);
    }
}

/// The widest line's length, in characters.
pub fn block_width(ls: &Vec<Vec<char>>) -> (w: usize)
    ensures
        w == width(lines_view(ls@)),
{
    let ghost v = lines_view(ls@);
    let mut w: usize = 0;
    let mut i: usize = 0;
    while i < ls.len()
        invariant
            v == lines_view(ls@),
            i <= ls.len(),
            w == width(v.subrange(0, i as int)),
        decreases ls.len() - i,
    {
        assert(v.subrange(0, i + 1).drop_last() =~= v.subrange(0, i as int));
        assert(v.subrange(0, i + 1).last() == ls@[i as int]@);
        if ls[i].len() > w {
            w = ls[i].len();
        }
        i = i + 1;
    }
    assert(v.subrange(0, i as int) =~= v);
    w
}

/// Sets `t2` to the right of `t1` (see `pad_concat`).
pub fn append_lines(t1: &mut Vec<Vec<char>>, t2: &Vec<Vec<char>>)
    ensures
        lines_view(final(t1)@) == pad_concat(lines_view(old(t1)@), lines_view(t2@)),
{
    let ghost a = lines_view(t1@);
    let ghost b = lines_view(t2@);
    let w = block_width(t1);
    let n1 = t1.len();
    while t1.len() < t2.len()
        invariant
            n1 <= t1.len() <= (if n1 < t2.len() { t2.len() } else { n1 }),
            forall|i: int| 0 <= i < n1 ==> (#[trigger] t1@[i])@ == a[i],
            forall|i: int| n1 <= i < t1.len() ==> (#[trigger] t1@[i])@ == Seq::<char>::empty(),
        decreases t2.len() - t1.len(),
    {
        t1.push(Vec::new());
    }
    let mut i: usize = 0;
    while i < t2.len()
        invariant
            t1.len() == (if n1 < t2.len() { t2.len() } else { n1 }),
            i <= t2.len(),
            w == width(a),
            a.len() == n1,
            b == lines_view(t2@),
            forall|j: int| 0 <= j < t1.len() ==> (#[trigger] t1@[j])@ == pad_concat(a, b)[j] || j >= i,
            forall|j: int| i <= j < n1 ==> (#[trigger] t1@[j])@ == a[j],
            forall|j: int| n1 <= j < t1.len() && j >= i ==> (#[trigger] t1@[j])@ == Seq::<char>::empty(),
        decreases t2.len() - i,
    {
        let mut line = Vec::new();
        std::mem::swap(&mut line, &mut t1[i]);
        let ghost old_line = line@;
        while line.len() < w
            invariant
                old_line.len() <= line.len(),
                line@ == pad(old_line, w as nat) || line@ == old_line + Seq::new((line.len() - old_line.len()) as nat, |k: int| ' '),
                line.len() <= w || line@ == old_line,
            decreases w - line.len(),
        {
            line.push(' ');
            assert(line@ =~= old_line + Seq::new((line.len() - old_line.len()) as nat, |k: int| ' '));
        }
        assert(line@ =~= pad(old_line, w as nat));
        let mut k: usize = 0;
        let ghost padded = line@;
        while k < t2[i].len()
            invariant
                i < t2.len(),
                k <= t2@[i as int].len(),
                line@ == padded + t2@[i as int]@.subrange(0, k as int),
            decreases t2@[i as int].len() - k,
        {
            line.push(t2[i][k]);
            k = k + 1;
            assert(line@ =~= padded + t2@[i as int]@.subrange(0, k as int));
        }
        assert(t2@[i as int]@.subrange(0, k as int) =~= b[i as int]);
        t1.set(i, line);
        i = i + 1;
    }
    assert(lines_view(t1@) =~= pad_concat(a, b));
}

/// Sets the lines `t2` to the right of the lines `t1` (see `pad_concat`).
pub fn append(t1: &mut Vec<String>, t2: &Vec<String>)
    ensures
        strings_view(final(t1)@) == pad_concat(strings_view(old(t1)@), strings_view(t2@)),
{
    let mut a = lines_of_strings(t1);
    let b = lines_of_strings(t2);
    append_lines(&mut a, &b);
    *t1 = strings_of_lines(&a);
}

} // verus!
