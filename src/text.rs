//! Characters, lines and the canonical (dedented) form of a block of lines.

use vstd::prelude::*;

verus! {

/// Unicode `White_Space`, the set that `char::is_whitespace` tests.
pub open spec fn is_ws(c: char) -> bool {
    let u = c as u32;
    (9 <= u && u <= 13) || u == 32 || u == 0x85 || u == 0xA0 || u == 0x1680 || (0x2000 <= u
        && u <= 0x200A) || u == 0x2028 || u == 0x2029 || u == 0x202F || u == 0x205F || u
        == 0x3000
}

/// Whether `c` is a whitespace character.
pub fn is_whitespace(c: char) -> (r: bool)
    ensures
        r == is_ws(c),
{
    let u = c as u32;
    (9 <= u && u <= 13) || u == 32 || u == 0x85 || u == 0xA0 || u == 0x1680 || (0x2000 <= u
        && u <= 0x200A) || u == 0x2028 || u == 0x2029 || u == 0x202F || u == 0x205F || u
        == 0x3000
}

/// A line with its trailing whitespace removed.
pub open spec fn strip_end(l: Seq<char>) -> Seq<char>
    decreases l.len(),
{
    if l.len() > 0 && is_ws(l.last()) {
        strip_end(l.drop_last())
    } else {
        l
    }
}

/// The number of whitespace characters a line starts with.
pub open spec fn lead_ws(l: Seq<char>) -> nat
    decreases l.len(),
{
    if l.len() > 0 && is_ws(l[0]) {
        1 + lead_ws(l.drop_first())
    } else {
        0
    }
}

/// The lines without the empty lines they start with.
pub open spec fn drop_leading_empty(ls: Seq<Seq<char>>) -> Seq<Seq<char>>
    decreases ls.len(),
{
    if ls.len() > 0 && ls[0].len() == 0 {
        drop_leading_empty(ls.drop_first())
    } else {
        ls
    }
}

/// The lines without the empty lines they end with.
pub open spec fn drop_trailing_empty(ls: Seq<Seq<char>>) -> Seq<Seq<char>>
    decreases ls.len(),
{
    if ls.len() > 0 && ls.last().len() == 0 {
        drop_trailing_empty(ls.drop_last())
    } else {
        ls
    }
}

/// The least indentation over the non-empty lines; `None` when every line is empty.
pub open spec fn min_indent(ls: Seq<Seq<char>>) -> Option<nat>
    decreases ls.len(),
{
    if ls.len() == 0 {
        None
    } else {
        let rest = min_indent(ls.drop_last());
        let l = ls.last();
        if l.len() == 0 {
            rest
        } else {
            match rest {
                None => Some(lead_ws(l)),
                Some(m) => Some(
                    if lead_ws(l) < m {
                        lead_ws(l)
                    } else {
                        m
                    },
                ),
            }
        }
    }
}

/// The indentation that canonicalization removes: `min_indent`, or 0.
pub open spec fn indent(ls: Seq<Seq<char>>) -> nat {
    match min_indent(ls) {
        Some(m) => m,
        None => 0,
    }
}

/// A line without its first `n` characters.
pub open spec fn skip(l: Seq<char>, n: nat) -> Seq<char> {
    if n <= l.len() {
        l.subrange(n as int, l.len() as int)
    } else {
        Seq::empty()
    }
}

/// The lines with trailing whitespace stripped, the empty lines at both
/// ends dropped, and the common indentation of the non-empty lines removed.
pub open spec fn canonical(ls: Seq<Seq<char>>) -> Seq<Seq<char>> {
    let mid = drop_trailing_empty(drop_leading_empty(ls.map_values(|l: Seq<char>| strip_end(l))));
    let left = indent(mid);
    mid.map_values(|l: Seq<char>| skip(l, left))
}

/// `canonical` when `on`, else the lines as they are.
pub open spec fn canon_if(ls: Seq<Seq<char>>, on: bool) -> Seq<Seq<char>> {
    if on {
        canonical(ls)
    } else {
        ls
    }
}

proof fn lemma_strip_end_shape(l: Seq<char>)
    ensures
        strip_end(l).len() <= l.len(),
        strip_end(l) == l.subrange(0, strip_end(l).len() as int),
        strip_end(l).len() == 0 || !is_ws(strip_end(l).last()),
        forall|j: int| strip_end(l).len() <= j < l.len() ==> is_ws(#[trigger] l[j]),
    decreases l.len(),
{
    if l.len() > 0 && is_ws(l.last()) {
        let p = l.drop_last();
        lemma_strip_end_shape(p);
        assert(strip_end(l) == strip_end(p));
        assert(p.subrange(0, strip_end(l).len() as int) =~= l.subrange(
            0,
            strip_end(l).len() as int,
        ));
        assert forall|j: int| strip_end(l).len() <= j < l.len() implies is_ws(#[trigger] l[j]) by {
            if j < p.len() {
                assert(l[j] == p[j]);
            }
        }
    } else {
        assert(strip_end(l) == l);
        assert(l.subrange(0, l.len() as int) =~= l);
    }
}

proof fn lemma_strip_end_fixed(l: Seq<char>)
    requires
        l.len() == 0 || !is_ws(l.last()),
    ensures
        strip_end(l) == l,
{
}

proof fn lemma_lead_ws_shape(l: Seq<char>)
    ensures
        lead_ws(l) <= l.len(),
        forall|j: int| 0 <= j < lead_ws(l) ==> is_ws(#[trigger] l[j]),
        lead_ws(l) < l.len() ==> !is_ws(l[lead_ws(l) as int]),
    decreases l.len(),
{
    if l.len() > 0 && is_ws(l[0]) {
        lemma_lead_ws_shape(l.drop_first());
        assert forall|j: int| 0 <= j < lead_ws(l) implies is_ws(#[trigger] l[j]) by {
            if j > 0 {
                assert(l[j] == l.drop_first()[j - 1]);
            }
        }
    }
}

/// Dropping `n` leading whitespace characters lowers the indentation by `n`.
proof fn lemma_lead_ws_skip(l: Seq<char>, n: nat)
    requires
        n <= lead_ws(l),
    ensures
        lead_ws(skip(l, n)) == lead_ws(l) - n,
    decreases n,
{
    lemma_lead_ws_shape(l);
    if n > 0 {
        assert(l.len() > 0 && is_ws(l[0]));
        lemma_lead_ws_skip(l.drop_first(), (n - 1) as nat);
        assert(skip(l.drop_first(), (n - 1) as nat) =~= skip(l, n));
    } else {
        assert(skip(l, 0) =~= l);
    }
}

/// A line that is non-empty and does not end in whitespace has fewer
/// leading whitespace characters than characters.
proof fn lemma_lead_ws_lt_len(l: Seq<char>)
    requires
        l.len() > 0,
        !is_ws(l.last()),
    ensures
        lead_ws(l) < l.len(),
{
    lemma_lead_ws_shape(l);
    if lead_ws(l) == l.len() {
        assert(is_ws(l[l.len() - 1]));
    }
}

proof fn lemma_min_indent(ls: Seq<Seq<char>>)
    ensures
        min_indent(ls) is None ==> forall|i: int| 0 <= i < ls.len() ==> (#[trigger] ls[i]).len()
            == 0,
        min_indent(ls) is Some ==> {
            let m = min_indent(ls)->0;
            &&& forall|i: int|
                0 <= i < ls.len() && (#[trigger] ls[i]).len() > 0 ==> lead_ws(ls[i]) >= m
            &&& exists|i: int| 0 <= i < ls.len() && (#[trigger] ls[i]).len() > 0 && lead_ws(ls[i]) == m
        },
    decreases ls.len(),
{
    if ls.len() > 0 {
        let p = ls.drop_last();
        let l = ls.last();
        let n = ls.len() - 1;
        lemma_min_indent(p);
        assert(ls[n] == l);
        if min_indent(ls) is None {
            assert(l.len() == 0 && min_indent(p) is None);
            assert forall|i: int| 0 <= i < ls.len() implies (#[trigger] ls[i]).len() == 0 by {
                if i < n {
                    assert(p[i] == ls[i]);
                }
            }
        } else {
            let m = min_indent(ls)->0;
            assert forall|i: int| 0 <= i < ls.len() && (#[trigger] ls[i]).len() > 0 implies lead_ws(ls[i]) >= m by {
                if i < n {
                    assert(p[i] == ls[i]);
                }
            }
            if l.len() > 0 && lead_ws(l) == m {
                assert(ls[n].len() > 0 && lead_ws(ls[n]) == m);
            } else {
                assert(min_indent(p) == Some(m));
                let i = choose|i: int| 0 <= i < p.len() && (#[trigger] p[i]).len() > 0 && lead_ws(p[i]) == m;
                assert(ls[i] == p[i]);
                assert(ls[i].len() > 0 && lead_ws(ls[i]) == m);
            }
        }
    }
}

/// The least indentation is the one that bounds every non-empty line from
/// below and is reached by one of them.
proof fn lemma_min_indent_is(ls: Seq<Seq<char>>, m: nat, w: int)
    requires
        forall|i: int| 0 <= i < ls.len() && (#[trigger] ls[i]).len() > 0 ==> lead_ws(ls[i]) >= m,
        0 <= w < ls.len(),
        ls[w].len() > 0,
        lead_ws(ls[w]) == m,
    ensures
        min_indent(ls) == Some(m),
{
    lemma_min_indent(ls);
    if min_indent(ls) is None {
        assert(ls[w].len() == 0);
    }
    let k = min_indent(ls)->0;
    let i = choose|i: int| 0 <= i < ls.len() && (#[trigger] ls[i]).len() > 0 && lead_ws(ls[i]) == k;
    assert(lead_ws(ls[i]) >= m);
}

proof fn lemma_drop_leading_empty(ls: Seq<Seq<char>>)
    ensures
        drop_leading_empty(ls).len() <= ls.len(),
        drop_leading_empty(ls).len() == 0 ==> forall|i: int| 0 <= i < ls.len() ==> (#[trigger] ls[i]).len() == 0,
        drop_leading_empty(ls).len() > 0 ==> drop_leading_empty(ls)[0].len() > 0,
        drop_leading_empty(ls) == ls.subrange(ls.len() - drop_leading_empty(ls).len(), ls.len() as int),
        forall|i: int| 0 <= i < ls.len() - drop_leading_empty(ls).len() ==> (#[trigger] ls[i]).len() == 0,
    decreases ls.len(),
{
    if ls.len() > 0 && ls[0].len() == 0 {
        let t = ls.drop_first();
        lemma_drop_leading_empty(t);
        assert forall|i: int| 0 < i < ls.len() implies #[trigger] ls[i] == t[i - 1] by {}
        assert(t.subrange(t.len() - drop_leading_empty(t).len(), t.len() as int) =~= ls.subrange(
            ls.len() - drop_leading_empty(t).len(),
            ls.len() as int,
        ));
    } else {
        assert(ls.subrange(0, ls.len() as int) =~= ls);
    }
}

proof fn lemma_drop_trailing_empty(ls: Seq<Seq<char>>)
    ensures
        drop_trailing_empty(ls).len() <= ls.len(),
        drop_trailing_empty(ls).len() == 0 ==> forall|i: int| 0 <= i < ls.len() ==> (#[trigger] ls[i]).len() == 0,
        drop_trailing_empty(ls).len() > 0 ==> drop_trailing_empty(ls).last().len() > 0,
        drop_trailing_empty(ls) == ls.subrange(0, drop_trailing_empty(ls).len() as int),
        forall|i: int| drop_trailing_empty(ls).len() <= i < ls.len() ==> (#[trigger] ls[i]).len() == 0,
    decreases ls.len(),
{
    if ls.len() > 0 && ls.last().len() == 0 {
        let t = ls.drop_last();
        lemma_drop_trailing_empty(t);
        assert forall|i: int| 0 <= i < t.len() implies #[trigger] ls[i] == t[i] by {}
        assert(t.subrange(0, drop_trailing_empty(t).len() as int) =~= ls.subrange(
            0,
            drop_trailing_empty(t).len() as int,
        ));
    } else {
        assert(ls.subrange(0, ls.len() as int) =~= ls);
    }
}

/// Canonicalizing a second time changes nothing.
pub proof fn lemma_canonical_idempotent(ls: Seq<Seq<char>>)
    ensures
        canonical(canonical(ls)) == canonical(ls),
{
    let s = ls.map_values(|l: Seq<char>| strip_end(l));
    let d = drop_leading_empty(s);
    let mid = drop_trailing_empty(d);
    let left = indent(mid);
    let c = canonical(ls);
    assert(c == mid.map_values(|l: Seq<char>| skip(l, left)));
    lemma_drop_leading_empty(s);
    lemma_drop_trailing_empty(d);
    lemma_min_indent(mid);
    // every line of `mid` is a stripped line of the input
    assert forall|i: int| 0 <= i < mid.len() implies (#[trigger] mid[i]).len() == 0 || !is_ws(
        mid[i].last(),
    ) by {
        let k = i + (s.len() - d.len());
        assert(mid[i] == d[i]);
        assert(0 <= k < s.len());
        assert(d[i] == s[k]);
        lemma_strip_end_shape(ls[k]);
    }
    // shape of the lines of `c`
    assert forall|i: int| 0 <= i < c.len() implies {
        &&& (#[trigger] c[i]).len() == 0 <==> mid[i].len() == 0
        &&& c[i].len() > 0 ==> !is_ws(c[i].last()) && lead_ws(c[i]) == lead_ws(mid[i]) - left
    } by {
        if mid[i].len() > 0 {
            lemma_lead_ws_lt_len(mid[i]);
            assert(min_indent(mid) is Some);
            lemma_lead_ws_skip(mid[i], left);
            assert(c[i].last() == mid[i].last());
        }
    }
    let s2 = c.map_values(|l: Seq<char>| strip_end(l));
    assert(s2 =~= c) by {
        assert forall|i: int| 0 <= i < c.len() implies s2[i] == c[i] by {
            lemma_strip_end_fixed(c[i]);
        }
    }
    if c.len() == 0 {
        assert(drop_leading_empty(c) =~= c);
        assert(drop_trailing_empty(c) =~= c);
        assert(canonical(c) =~= c);
    } else {
        assert(mid.len() > 0);
        assert(mid[0] == d[0]);
        assert(mid[0].len() > 0);
        assert(c[0].len() > 0);
        assert(c.last().len() > 0);
        assert(drop_leading_empty(c) == c);
        assert(drop_trailing_empty(c) == c);
        let w = choose|i: int| 0 <= i < mid.len() && (#[trigger] mid[i]).len() > 0 && lead_ws(mid[i]) == left;
        lemma_min_indent_is(c, 0, w);
        assert(indent(c) == 0);
        assert(canonical(c) =~= c) by {
            assert forall|i: int| 0 <= i < c.len() implies skip(c[i], 0) == c[i] by {
                assert(c[i].subrange(0, c[i].len() as int) =~= c[i]);
            }
        }
    }
}

/// Canonical lines are a window of the input: only blank lines before the
/// first and after the last non-blank line are dropped, blank lines inside
/// stay where they are, and the window starts and ends with a non-blank line.
pub proof fn lemma_blank_lines_trimmed_at_ends_only(ls: Seq<Seq<char>>) -> (lo: int)
    ensures
        0 <= lo,
        lo + canonical(ls).len() <= ls.len(),
        forall|j: int| 0 <= j < lo ==> strip_end(#[trigger] ls[j]).len() == 0,
        forall|j: int| lo + canonical(ls).len() <= j < ls.len() ==> strip_end(#[trigger] ls[j]).len() == 0,
        forall|i: int| 0 <= i < canonical(ls).len() ==> ((#[trigger] canonical(ls)[i]).len() == 0 <==> strip_end(ls[lo + i]).len() == 0),
        canonical(ls).len() > 0 ==> canonical(ls)[0].len() > 0 && canonical(ls).last().len() > 0,
{
    let s = ls.map_values(|l: Seq<char>| strip_end(l));
    let d = drop_leading_empty(s);
    let mid = drop_trailing_empty(d);
    let left = indent(mid);
    let c = canonical(ls);
    assert(c == mid.map_values(|l: Seq<char>| skip(l, left)));
    lemma_drop_leading_empty(s);
    lemma_drop_trailing_empty(d);
    lemma_min_indent(mid);
    let lo = s.len() - d.len();
    assert forall|i: int| 0 <= i < mid.len() implies (#[trigger] mid[i]) == s[lo + i] by {
        assert(mid[i] == d[i]);
    }
    assert forall|i: int| 0 <= i < mid.len() implies (#[trigger] mid[i]).len() == 0 || !is_ws(
        mid[i].last(),
    ) by {
        assert(mid[i] == s[lo + i]);
        lemma_strip_end_shape(ls[lo + i]);
    }
    assert forall|i: int| 0 <= i < c.len() implies ((#[trigger] c[i]).len() == 0 <==> mid[i].len() == 0) by {
        if mid[i].len() > 0 {
            lemma_lead_ws_lt_len(mid[i]);
            assert(min_indent(mid) is Some);
            lemma_lead_ws_skip(mid[i], left);
        }
    }
    assert forall|j: int| 0 <= j < lo implies strip_end(#[trigger] ls[j]).len() == 0 by {
        assert(s[j] == strip_end(ls[j]));
    }
    assert forall|j: int| lo + c.len() <= j < ls.len() implies strip_end(#[trigger] ls[j]).len() == 0 by {
        assert(s[j] == strip_end(ls[j]));
        assert(d[j - lo] == s[j]);
    }
    assert forall|i: int| 0 <= i < c.len() implies ((#[trigger] c[i]).len() == 0 <==> strip_end(ls[lo + i]).len() == 0) by {
        assert(s[lo + i] == strip_end(ls[lo + i]));
    }
    if c.len() > 0 {
        assert(mid[0] == d[0]);
        assert(c[0].len() > 0);
        assert(c.last().len() > 0);
    }
    lo
}

/// Canonicalization removes the least indentation: for the window `lo..`
/// of kept lines, each canonical line is its stripped source line without
/// its first `left` characters, every non-blank source line there is
/// indented by at least `left`, and some canonical line is not indented.
pub proof fn lemma_least_indentation_removed(ls: Seq<Seq<char>>) -> (r: (int, nat))
    ensures
        0 <= r.0,
        r.0 + canonical(ls).len() <= ls.len(),
        forall|i: int| 0 <= i < canonical(ls).len() ==> #[trigger] canonical(ls)[i] == skip(strip_end(ls[r.0 + i]), r.1),
        forall|i: int| 0 <= i < canonical(ls).len() && strip_end(ls[r.0 + i]).len() > 0 ==> lead_ws(strip_end(#[trigger] ls[r.0 + i])) >= r.1,
        canonical(ls).len() > 0 ==> exists|i: int| 0 <= i < canonical(ls).len() && (#[trigger] canonical(ls)[i]).len() > 0 && lead_ws(canonical(ls)[i]) == 0,
{
    let s = ls.map_values(|l: Seq<char>| strip_end(l));
    let d = drop_leading_empty(s);
    let mid = drop_trailing_empty(d);
    let left = indent(mid);
    let c = canonical(ls);
    assert(c == mid.map_values(|l: Seq<char>| skip(l, left)));
    lemma_drop_leading_empty(s);
    lemma_drop_trailing_empty(d);
    lemma_min_indent(mid);
    let lo = s.len() - d.len();
    assert forall|i: int| 0 <= i < mid.len() implies (#[trigger] mid[i]) == strip_end(ls[lo + i]) by {
        assert(mid[i] == d[i]);
        assert(s[lo + i] == strip_end(ls[lo + i]));
    }
    assert forall|i: int| 0 <= i < c.len() implies #[trigger] c[i] == skip(strip_end(ls[lo + i]), left) by {
        assert(mid[i] == strip_end(ls[lo + i]));
    }
    assert forall|i: int| 0 <= i < c.len() && strip_end(ls[lo + i]).len() > 0 implies lead_ws(strip_end(#[trigger] ls[lo + i])) >= left by {
        assert(mid[i] == strip_end(ls[lo + i]));
        assert(min_indent(mid) is Some);
    }
    if c.len() > 0 {
        let w = choose|i: int| 0 <= i < mid.len() && (#[trigger] mid[i]).len() > 0 && lead_ws(mid[i]) == left;
        assert(mid[w] == strip_end(ls[lo + w]));
        lemma_strip_end_shape(ls[lo + w]);
        lemma_lead_ws_lt_len(mid[w]);
        lemma_lead_ws_skip(mid[w], left);
        assert(c[w] == skip(mid[w], left));
        assert(c[w].len() > 0);
        assert(lead_ws(c[w]) == 0);
    }
    (lo, left)
}

/// The line with its trailing whitespace removed.
pub fn strip_line_end(l: &Vec<char>) -> (r: Vec<char>)
    ensures
        r@ == strip_end(l@),
{
    let mut k: usize = l.len();
    assert(l@.subrange(0, k as int) =~= l@);
    while k > 0 && is_whitespace(l[k - 1])
        invariant
            k <= l.len(),
            strip_end(l@.subrange(0, k as int)) == strip_end(l@),
        decreases k,
    {
        assert(l@.subrange(0, k as int).drop_last() =~= l@.subrange(0, k - 1));
        k = k - 1;
    }
    let mut r: Vec<char> = Vec::new();
    let mut i: usize = 0;
    while i < k
        invariant
            k <= l.len(),
            i <= k,
            r@ == l@.subrange(0, i as int),
        decreases k - i,
    {
        r.push(l[i]);
        i = i + 1;
        assert(r@ =~= l@.subrange(0, i as int));
    }
    r
}

/// The number of whitespace characters the line starts with.
pub fn leading_whitespace(l: &Vec<char>) -> (r: usize)
    ensures
        r == lead_ws(l@),
{
    let mut k: usize = 0;
    assert(l@.subrange(0, l.len() as int) =~= l@);
    while k < l.len() && is_whitespace(l[k])
        invariant
            k <= l.len(),
            lead_ws(l@) == k + lead_ws(l@.subrange(k as int, l.len() as int)),
        decreases l.len() - k,
    {
        assert(l@.subrange(k as int, l.len() as int).drop_first() =~= l@.subrange(
            k + 1,
            l.len() as int,
        ));
        k = k + 1;
    }
    k
}

/// The line without its first `n` characters.
pub fn skip_chars(l: &Vec<char>, n: usize) -> (r: Vec<char>)
    ensures
        r@ == skip(l@, n as nat),
{
    let mut r: Vec<char> = Vec::new();
    if n <= l.len() {
        let mut i: usize = n;
        while i < l.len()
            invariant
                n <= i <= l.len(),
                r@ == l@.subrange(n as int, i as int),
            decreases l.len() - i,
        {
            r.push(l[i]);
            i = i + 1;
            assert(r@ =~= l@.subrange(n as int, i as int));
        }
    }
    r
}

pub open spec fn lines_view(ls: Seq<Vec<char>>) -> Seq<Seq<char>> {
    ls.map_values(|l: Vec<char>| l@)
}

/// The canonical form of a block of lines (see `canonical`).
pub fn canonicalize(lines: &Vec<Vec<char>>) -> (r: Vec<Vec<char>>)
    ensures
        lines_view(r@) == canonical(lines_view(lines@)),
{
    let ghost ls = lines_view(lines@);
    let ghost s = ls.map_values(|l: Seq<char>| strip_end(l));
    let mut st: Vec<Vec<char>> = Vec::new();
    let mut i: usize = 0;
    while i < lines.len()
        invariant
            i <= lines.len(),
            ls == lines_view(lines@),
            s == ls.map_values(|l: Seq<char>| strip_end(l)),
            st.len() == i,
            forall|j: int| 0 <= j < i ==> (#[trigger] st@[j])@ == s[j],
        decreases lines.len() - i,
    {
        let t = strip_line_end(&lines[i]);
        assert(s[i as int] == strip_end(lines@[i as int]@));
        st.push(t);
        i = i + 1;
    }
    assert(lines_view(st@) =~= s);
    // first and one-past-last non-empty line
    let mut lo: usize = 0;
    assert(s.subrange(0, s.len() as int) =~= s);
    while lo < st.len() && st[lo].len() == 0
        invariant
            lo <= st.len(),
            lines_view(st@) == s,
            drop_leading_empty(s) == drop_leading_empty(s.subrange(lo as int, s.len() as int)),
        decreases st.len() - lo,
    {
        assert(s.subrange(lo as int, s.len() as int).drop_first() =~= s.subrange(
            lo + 1,
            s.len() as int,
        ));
        lo = lo + 1;
    }
    let ghost d = s.subrange(lo as int, s.len() as int);
    assert(drop_leading_empty(d) == d);
    let mut hi: usize = st.len();
    while hi > lo && st[hi - 1].len() == 0
        invariant
            lo <= hi <= st.len(),
            lines_view(st@) == s,
            d == s.subrange(lo as int, s.len() as int),
            drop_trailing_empty(d) == drop_trailing_empty(s.subrange(lo as int, hi as int)),
        decreases hi,
    {
        assert(s.subrange(lo as int, hi as int).drop_last() =~= s.subrange(lo as int, hi - 1));
        hi = hi - 1;
    }
    let ghost mid = s.subrange(lo as int, hi as int);
    assert(drop_trailing_empty(mid) == mid);
    // least indentation of the non-empty lines
    let mut found = false;
    let mut left: usize = 0;
    let mut j: usize = lo;
    while j < hi
        invariant
            lo <= j <= hi <= st.len(),
            lines_view(st@) == s,
            mid == s.subrange(lo as int, hi as int),
            found == (min_indent(mid.subrange(0, j - lo)) is Some),
            found ==> min_indent(mid.subrange(0, j - lo)) == Some(left as nat),
            !found ==> left == 0,
        decreases hi - j,
    {
        assert(mid.subrange(0, j + 1 - lo).drop_last() =~= mid.subrange(0, j - lo));
        assert(mid.subrange(0, j + 1 - lo).last() == st@[j as int]@);
        if st[j].len() > 0 {
            let w = leading_whitespace(&st[j]);
            if !found || w < left {
                left = w;
            }
            found = true;
        }
        j = j + 1;
    }
    assert(mid.subrange(0, hi - lo) =~= mid);
    assert(found == (min_indent(mid) is Some));
    assert(left == indent(mid));
    let mut r: Vec<Vec<char>> = Vec::new();
    let mut k: usize = lo;
    while k < hi
        invariant
            lo <= k <= hi <= st.len(),
            lines_view(st@) == s,
            mid == s.subrange(lo as int, hi as int),
            left == indent(mid),
            r.len() == k - lo,
            forall|j: int| 0 <= j < k - lo ==> (#[trigger] r@[j])@ == skip(mid[j], left as nat),
        decreases hi - k,
    {
        let t = skip_chars(&st[k], left);
        assert(mid[k - lo] == st@[k as int]@);
        r.push(t);
        k = k + 1;
    }
    assert(lines_view(r@) =~= mid.map_values(|l: Seq<char>| skip(l, left as nat)));
    r
}

/// The index of the first `c` at or after `from`, or the length when there is none.
pub open spec fn find_char(s: Seq<char>, c: char, from: int) -> int
    decreases s.len() - from,
{
    if from < 0 || from >= s.len() {
        s.len() as int
    } else if s[from] == c {
        from
    } else {
        find_char(s, c, from + 1)
    }
}

pub proof fn lemma_find_char(s: Seq<char>, c: char, from: int)
    requires
        0 <= from <= s.len(),
    ensures
        from <= find_char(s, c, from) <= s.len(),
        find_char(s, c, from) < s.len() ==> s[find_char(s, c, from)] == c,
        forall|j: int| from <= j < find_char(s, c, from) ==> s[j] != c,
    decreases s.len() - from,
{
    if from < s.len() && s[from] != c {
        lemma_find_char(s, c, from + 1);
    }
}

/// The pieces of `s` from `pos` on, cut at each line break (as `str::split('\n')`).
pub open spec fn split_from(s: Seq<char>, pos: int) -> Seq<Seq<char>>
    decreases s.len() - pos,
{
    if pos < 0 || pos > s.len() {
        seq![]
    } else {
        let i = find_char(s, '\n', pos);
        if i >= s.len() {
            seq![s.subrange(pos, s.len() as int)]
        } else {
            proof {
                lemma_find_char(s, '\n', pos);
            }
            seq![s.subrange(pos, i)] + split_from(s, i + 1)
        }
    }
}

/// The lines of a text: the pieces between line breaks.
pub open spec fn split_lines(s: Seq<char>) -> Seq<Seq<char>> {
    split_from(s, 0)
}

/// The lines joined with a line break between each two.
pub open spec fn join_lines(ls: Seq<Seq<char>>) -> Seq<char>
    decreases ls.len(),
{
    if ls.len() == 0 {
        seq![]
    } else if ls.len() == 1 {
        ls[0]
    } else {
        join_lines(ls.drop_last()) + seq!['\n'] + ls.last()
    }
}

/// The characters of a string slice.
pub fn chars_of(s: &str) -> (r: Vec<char>)
    ensures
        r@ == s@,
{
    let n = s.unicode_len();
    let mut r: Vec<char> = Vec::new();
    let mut i: usize = 0;
    while i < n
        invariant
            n == s@.len(),
            i <= n,
            r@ == s@.subrange(0, i as int),
        decreases n - i,
    {
        r.push(s.get_char(i));
        i = i + 1;
        assert(r@ =~= s@.subrange(0, i as int));
    }
    assert(r@ =~= s@);
    r
}

/// Relies on `String::push`: the character is appended at the end.
#[verifier::external_body]
fn push_char(s: &mut String, c: char)
    ensures
        final(s)@ == old(s)@.push(c),
{
    s.push(c)
}

/// The string holding the given characters.
pub fn string_of(v: &Vec<char>) -> (r: String)
    ensures
        r@ == v@,
{
    let mut r = String::new();
    let mut i: usize = 0;
    while i < v.len()
        invariant
            i <= v.len(),
            r@ == v@.subrange(0, i as int),
        decreases v.len() - i,
    {
        push_char(&mut r, v[i]);
        i = i + 1;
        assert(r@ =~= v@.subrange(0, i as int));
    }
    assert(r@ =~= v@);
    r
}

pub open spec fn strings_view(ls: Seq<String>) -> Seq<Seq<char>> {
    ls.map_values(|l: String| l@)
}

/// The lines of a block as character vectors.
pub fn lines_of_strings(ls: &Vec<String>) -> (r: Vec<Vec<char>>)
    ensures
        lines_view(r@) == strings_view(ls@),
{
    let mut r: Vec<Vec<char>> = Vec::new();
    let mut i: usize = 0;
    while i < ls.len()
        invariant
            i <= ls.len(),
            r.len() == i,
            forall|j: int| 0 <= j < i ==> (#[trigger] r@[j])@ == ls@[j]@,
        decreases ls.len() - i,
    {
        r.push(chars_of(ls[i].as_str()));
        i = i + 1;
    }
    assert(lines_view(r@) =~= strings_view(ls@));
    r
}

/// The lines of a block as strings.
pub fn strings_of_lines(ls: &Vec<Vec<char>>) -> (r: Vec<String>)
    ensures
        strings_view(r@) == lines_view(ls@),
{
    let mut r: Vec<String> = Vec::new();
    let mut i: usize = 0;
    while i < ls.len()
        invariant
            i <= ls.len(),
            r.len() == i,
            forall|j: int| 0 <= j < i ==> (#[trigger] r@[j])@ == ls@[j]@,
        decreases ls.len() - i,
    {
        r.push(string_of(&ls[i]));
        i = i + 1;
    }
    assert(strings_view(r@) =~= lines_view(ls@));
    r
}

/// The text cut into lines at each line break.
pub fn split_text(s: &Vec<char>) -> (r: Vec<Vec<char>>)
    ensures
        lines_view(r@) == split_lines(s@),
{
    let mut r: Vec<Vec<char>> = Vec::new();
    let mut cur: Vec<char> = Vec::new();
    let mut pos: usize = 0;
    let mut i: usize = 0;
    while i < s.len()
        invariant
            pos <= i <= s.len(),
            cur@ == s@.subrange(pos as int, i as int),
            forall|j: int| pos <= j < i ==> s@[j] != '\n',
            lines_view(r@) + split_from(s@, pos as int) == split_lines(s@),
        decreases s.len() - i,
    {
        if s[i] == '\n' {
            proof {
                lemma_find_char(s@, '\n', pos as int);
                assert(find_char(s@, '\n', pos as int) == i);
                assert(lines_view(r@.push(cur)) =~= lines_view(r@) + seq![s@.subrange(pos as int, i as int)]);
                assert(split_from(s@, pos as int) == seq![s@.subrange(pos as int, i as int)] + split_from(s@, i + 1));
                assert(lines_view(r@.push(cur)) + split_from(s@, i + 1) =~= lines_view(r@) + split_from(s@, pos as int));
            }
            r.push(cur);
            cur = Vec::new();
            i = i + 1;
            pos = i;
            assert(cur@ =~= s@.subrange(pos as int, i as int));
        } else {
            cur.push(s[i]);
            i = i + 1;
            assert(cur@ =~= s@.subrange(pos as int, i as int));
        }
    }
    proof {
        lemma_find_char(s@, '\n', pos as int);
        assert(find_char(s@, '\n', pos as int) == s.len());
        assert(lines_view(r@.push(cur)) =~= lines_view(r@) + split_from(s@, pos as int));
    }
    r.push(cur);
    r
}

/// The lines joined with a line break between each two.
pub fn join_text(ls: &Vec<Vec<char>>) -> (r: Vec<char>)
    ensures
        r@ == join_lines(lines_view(ls@)),
{
    let mut r: Vec<char> = Vec::new();
    let mut i: usize = 0;
    while i < ls.len()
        invariant
            i <= ls.len(),
            r@ == join_lines(lines_view(ls@).subrange(0, i as int)),
        decreases ls.len() - i,
    {
        let ghost before = r@;
        if i > 0 {
            r.push('\n');
        }
        let mut k: usize = 0;
        while k < ls[i].len()
            invariant
                i < ls.len(),
                k <= ls@[i as int].len(),
                r@ == (if i > 0 { before + seq!['\n'] } else { before }) + ls@[i as int]@.subrange(0, k as int),
            decreases ls@[i as int].len() - k,
        {
            r.push(ls[i][k]);
            k = k + 1;
            assert(r@ =~= (if i > 0 { before + seq!['\n'] } else { before }) + ls@[i as int]@.subrange(0, k as int));
        }
        let ghost p = lines_view(ls@).subrange(0, i + 1);
        assert(p.drop_last() =~= lines_view(ls@).subrange(0, i as int));
        assert(ls@[i as int]@.subrange(0, k as int) =~= p.last());
        if i == 0 {
            assert(before =~= seq![]);
            assert(r@ =~= p[0]);
        }
        i = i + 1;
    }
    assert(lines_view(ls@).subrange(0, i as int) =~= lines_view(ls@));
    r
}

/// The lines in canonical form when `do_trimming`, else as they are.
pub fn trim(lns: &Vec<String>, do_trimming: bool) -> (r: Vec<String>)
    ensures
        strings_view(r@) == canon_if(strings_view(lns@), do_trimming),
{
    let ls = lines_of_strings(lns);
    if do_trimming {
        strings_of_lines(&canonicalize(&ls))
    } else {
        strings_of_lines(&ls)
    }
}

} // verus!
