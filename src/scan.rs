//! The placeholder scanner: finds `@{name}` references in a line.

use vstd::prelude::*;
use crate::TileError;
use crate::text::{find_char, lemma_find_char, lines_view};

verus! {

/// The index of the first `@{` at or after `from`, or the length when there is none.
pub open spec fn find_open(ln: Seq<char>, from: int) -> int
    decreases ln.len() - from,
{
    if from < 0 || from + 1 >= ln.len() {
        ln.len() as int
    } else if ln[from] == '@' && ln[from + 1] == '{' {
        from
    } else {
        find_open(ln, from + 1)
    }
}

pub proof fn lemma_find_open(ln: Seq<char>, from: int)
    requires
        0 <= from <= ln.len(),
    ensures
        from <= find_open(ln, from) <= ln.len(),
        find_open(ln, from) < ln.len() ==> find_open(ln, from) + 1 < ln.len() && ln[find_open(ln, from)] == '@'
            && ln[find_open(ln, from) + 1] == '{',
    decreases ln.len() - from,
{
    if from + 1 < ln.len() && !(ln[from] == '@' && ln[from + 1] == '{') {
        lemma_find_open(ln, from + 1);
    }
}

/// The parts of `ln` from `pos` on: the literal texts and, between each two
/// of them, the name of a reference. `None` when a `@{` has no `}` after it.
pub open spec fn parse_from(ln: Seq<char>, pos: int) -> Option<(Seq<Seq<char>>, Seq<Seq<char>>)>
    decreases ln.len() - pos,
{
    if pos < 0 || pos > ln.len() {
        None
    } else {
        let s = find_open(ln, pos);
        if s >= ln.len() {
            Some((seq![ln.subrange(pos, ln.len() as int)], seq![]))
        } else {
            let c = find_char(ln, '}', s + 2);
            if c >= ln.len() {
                None
            } else {
                proof {
                    lemma_find_open(ln, pos);
                    lemma_find_char(ln, '}', s + 2);
                }
                match parse_from(ln, c + 1) {
                    Some(p) => Some(
                        (seq![ln.subrange(pos, s)] + p.0, seq![ln.subrange(s + 2, c)] + p.1),
                    ),
                    None => None,
                }
            }
        }
    }
}

/// A line split into literal texts and reference names:
/// `texts[0] @{names[0]} texts[1] ... @{names[k-1]} texts[k]`.
pub open spec fn parse_line(ln: Seq<char>) -> Option<(Seq<Seq<char>>, Seq<Seq<char>>)> {
    parse_from(ln, 0)
}

pub proof fn lemma_parse_from_shape(ln: Seq<char>, pos: int)
    ensures
        parse_from(ln, pos) matches Some((ts, ns)) ==> ts.len() == ns.len() + 1,
    decreases ln.len() - pos,
{
    if 0 <= pos <= ln.len() {
        let s = find_open(ln, pos);
        if s < ln.len() {
            let c = find_char(ln, '}', s + 2);
            if c < ln.len() {
                lemma_find_open(ln, pos);
                lemma_find_char(ln, '}', s + 2);
                lemma_parse_from_shape(ln, c + 1);
            }
        }
    }
}

/// The first `@{` at or after `from`, or the length.
fn find_open_at(ln: &Vec<char>, from: usize) -> (r: usize)
    requires
        from <= ln.len(),
    ensures
        r == find_open(ln@, from as int),
{
    let mut i = from;
    while i < ln.len() && i + 1 < ln.len() && !(ln[i] == '@' && ln[i + 1] == '{')
        invariant
            from <= i <= ln.len(),
            find_open(ln@, from as int) == find_open(ln@, i as int),
        decreases ln.len() - i,
    {
        i = i + 1;
    }
    if i < ln.len() && i + 1 < ln.len() {
        i
    } else {
        ln.len()
    }
}

/// The first `c` at or after `from`, or the length.
pub fn find_char_at(ln: &Vec<char>, c: char, from: usize) -> (r: usize)
    requires
        from <= ln.len(),
    ensures
        r == find_char(ln@, c, from as int),
{
    let mut i = from;
    while i < ln.len() && ln[i] != c
        invariant
            from <= i <= ln.len(),
            find_char(ln@, c, from as int) == find_char(ln@, c, i as int),
        decreases ln.len() - i,
    {
        i = i + 1;
    }
    i
}

/// The next reference at or after `cursor`: `Ok(Some((s, c)))` when `@{`
/// starts at `s` and its closing `}` stands at `c`; `Ok(None)` when no `@{`
/// follows; `Err(MalformedReference)` when a `@{` is never closed.
pub fn next_reference(ln: &Vec<char>, cursor: usize) -> (r: Result<Option<(usize, usize)>, TileError>)
    requires
        cursor <= ln.len(),
    ensures
        ({
            let s = find_open(ln@, cursor as int);
            let c = find_char(ln@, '}', s + 2);
            match r {
                Ok(None) => s >= ln.len(),
                Ok(Some((rs, rc))) => s < ln.len() && c < ln.len() && rs == s && rc == c,
                Err(e) => e == TileError::MalformedReference && s < ln.len() && c >= ln.len(),
            }
        }),
{
    let s = find_open_at(ln, cursor);
    if s >= ln.len() {
        return Ok(None);
    }
    proof {
        lemma_find_open(ln@, cursor as int);
    }
    let c = find_char_at(ln, '}', s + 2);
    if c >= ln.len() {
        Err(TileError::MalformedReference)
    } else {
        Ok(Some((s, c)))
    }
}

/// The characters `from..to` of the line.
pub fn slice_chars(ln: &Vec<char>, from: usize, to: usize) -> (r: Vec<char>)
    requires
        from <= to <= ln.len(),
    ensures
        r@ == ln@.subrange(from as int, to as int),
{
    let mut r: Vec<char> = Vec::new();
    let mut i = from;
    while i < to
        invariant
            from <= i <= to <= ln.len(),
            r@ == ln@.subrange(from as int, i as int),
        decreases to - i,
    {
        r.push(ln[i]);
        i = i + 1;
        assert(r@ =~= ln@.subrange(from as int, i as int));
    }
    r
}

/// The line split into its literal texts and reference names (see `parse_line`).
pub fn scan_line(ln: &Vec<char>) -> (r: Result<(Vec<Vec<char>>, Vec<Vec<char>>), TileError>)
    ensures
        match r {
            Ok((ts, ns)) => parse_line(ln@) == Some((lines_view(ts@), lines_view(ns@))),
            Err(e) => e == TileError::MalformedReference && parse_line(ln@) is None,
        },
{
    let mut texts: Vec<Vec<char>> = Vec::new();
    let mut names: Vec<Vec<char>> = Vec::new();
    let mut pos: usize = 0;
    loop
        invariant
            pos <= ln.len(),
            parse_line(ln@) == match parse_from(ln@, pos as int) {
                Some(p) => Some((lines_view(texts@) + p.0, lines_view(names@) + p.1)),
                None => None,
            },
        decreases ln.len() - pos,
    {
        let nx = next_reference(ln, pos);
        match nx {
            Err(e) => {
                return Err(e);
            },
            Ok(None) => {
                let ghost tv = lines_view(texts@);
                let t = slice_chars(ln, pos, ln.len());
                texts.push(t);
                assert(lines_view(texts@) =~= tv + seq![ln@.subrange(pos as int, ln.len() as int)]);
                assert(lines_view(names@) + seq![] =~= lines_view(names@));
                return Ok((texts, names));
            },
            Ok(Some((s, c))) => {
                proof {
                    lemma_find_open(ln@, pos as int);
                    lemma_find_char(ln@, '}', s + 2);
                }
                let ghost tv = lines_view(texts@);
                let ghost nv = lines_view(names@);
                texts.push(slice_chars(ln, pos, s));
                names.push(slice_chars(ln, s + 2, c));
                assert(lines_view(texts@) =~= tv + seq![ln@.subrange(pos as int, s as int)]);
                assert(lines_view(names@) =~= nv + seq![ln@.subrange(s + 2, c as int)]);
                pos = c + 1;
            },
        }
    }
}

} // verus!
