//! The resolver: substitutes `@{name}` references with the resolved text of
//! the named tiles, recursively, and detects cycles along the chain of
//! tiles being resolved.

use vstd::prelude::*;
use crate::TileError;
use crate::align::{append_lines, pad_concat};
use crate::registry::{copy_chars, same_chars, Registry};
use crate::scan::{parse_line, scan_line};
use crate::text::{
    canon_if, canonicalize, join_lines, join_text, lines_of_strings, lines_view, split_lines,
    split_text, strings_view,
};

verus! {

/// The lines of a block as rendering sees them: joined, then cut again at
/// every line break.
pub open spec fn text_lines(lns: Seq<Seq<char>>) -> Seq<Seq<char>> {
    split_lines(join_lines(lns))
}

/// Each line split into texts and reference names; `None` when a line is malformed.
pub open spec fn parse_all(ls: Seq<Seq<char>>) -> Option<Seq<(Seq<Seq<char>>, Seq<Seq<char>>)>> {
    if forall|i: int| 0 <= i < ls.len() ==> (#[trigger] parse_line(ls[i])) is Some {
        Some(ls.map_values(|l: Seq<char>| parse_line(l)->0))
    } else {
        None
    }
}

/// Renders the pieces of one line from reference `i` on, onto `acc`: each
/// text, then the lines of each reference's value set to its right (an
/// absent value adds nothing); the last text is left out when it is empty
/// and the line holds a reference.
pub open spec fn render_from(
    acc: Seq<Seq<char>>,
    texts: Seq<Seq<char>>,
    names: Seq<Seq<char>>,
    vals: Seq<Option<Seq<char>>>,
    i: int,
) -> Seq<Seq<char>>
    decreases names.len() - i,
{
    if i < 0 || i >= names.len() {
        if names.len() > 0 && texts.last().len() == 0 {
            acc
        } else {
            pad_concat(acc, seq![texts.last()])
        }
    } else {
        let a1 = pad_concat(acc, seq![texts[i]]);
        let a2 = match vals[i] {
            Some(v) => pad_concat(a1, split_lines(v)),
            None => a1,
        };
        render_from(a2, texts, names, vals, i + 1)
    }
}

/// The lines that one parsed line renders to, given its references' values.
pub open spec fn render_line(p: (Seq<Seq<char>>, Seq<Seq<char>>), vals: Seq<Option<Seq<char>>>) -> Seq<Seq<char>> {
    render_from(seq![], p.0, p.1, vals, 0)
}

/// The rendered lines of all parsed lines, one after the other.
pub open spec fn assemble(
    pl: Seq<(Seq<Seq<char>>, Seq<Seq<char>>)>,
    vals: Seq<Seq<Option<Seq<char>>>>,
) -> Seq<Seq<char>>
    decreases pl.len(),
{
    if pl.len() == 0 {
        seq![]
    } else {
        assemble(pl.drop_last(), vals.drop_last()) + render_line(pl.last(), vals.last())
    }
}

/// The resolved value of a reference to `name` met while resolving the tiles
/// in `path` (its direct ancestors). A name on the path is a cycle; a
/// registered tile resolves to its lines with every reference substituted,
/// canonicalized in trimming mode; any other name has the value stored for
/// it, if any.
pub open spec fn eval_name(reg: Registry, name: Seq<char>, path: Seq<Seq<char>>) -> Result<
    Option<Seq<char>>,
    TileError,
>
    decreases reg.size() - path.len(), 0int, 0int,
{
    if path.contains(name) {
        Err(TileError::RecursionDetected)
    } else {
        match reg.raw_get(name) {
            None => Ok(reg.resolved_get(name)),
            Some(t) => {
                if path.len() >= reg.size() {
                    Err(TileError::RecursionDetected)
                } else {
                    match parse_all(text_lines(strings_view(t.lns@))) {
                        None => Err(TileError::MalformedReference),
                        Some(pl) => match eval_lines(reg, pl, path.push(name), false, 0) {
                            Err(e) => Err(e),
                            Ok(vals) => Ok(
                                Some(join_lines(canon_if(assemble(pl, vals), t.do_trimming))),
                            ),
                        },
                    }
                }
            },
        }
    }
}

/// The values of the references of the parsed lines from line `i` on; at
/// the top level (`top`) a name with no registered tile has no value.
pub open spec fn eval_lines(
    reg: Registry,
    pl: Seq<(Seq<Seq<char>>, Seq<Seq<char>>)>,
    path: Seq<Seq<char>>,
    top: bool,
    i: int,
) -> Result<Seq<Seq<Option<Seq<char>>>>, TileError>
    decreases reg.size() - path.len(), 2int, pl.len() - i,
{
    if i < 0 || i >= pl.len() {
        Ok(seq![])
    } else {
        match eval_names(reg, pl[i].1, path, top, 0) {
            Err(e) => Err(e),
            Ok(v) => match eval_lines(reg, pl, path, top, i + 1) {
                Err(e) => Err(e),
                Ok(vs) => Ok(seq![v] + vs),
            },
        }
    }
}

/// The values of `names` from index `j` on (see `eval_lines`).
pub open spec fn eval_names(
    reg: Registry,
    names: Seq<Seq<char>>,
    path: Seq<Seq<char>>,
    top: bool,
    j: int,
) -> Result<Seq<Option<Seq<char>>>, TileError>
    decreases reg.size() - path.len(), 1int, names.len() - j,
{
    if j < 0 || j >= names.len() {
        Ok(seq![])
    } else {
        let r = if top && reg.raw_get(names[j]) is None {
            Ok(None)
        } else {
            eval_name(reg, names[j], path)
        };
        match r {
            Err(e) => Err(e),
            Ok(v) => match eval_names(reg, names, path, top, j + 1) {
                Err(e) => Err(e),
                Ok(vs) => Ok(seq![v] + vs),
            },
        }
    }
}

/// The text that the lines `lns` render to in `reg`: every reference
/// substituted (a name with no registered tile contributes nothing), then
/// canonicalized when `trim`.
pub open spec fn render(reg: Registry, lns: Seq<Seq<char>>, trim: bool) -> Result<Seq<char>, TileError> {
    match parse_all(text_lines(lns)) {
        None => Err(TileError::MalformedReference),
        Some(pl) => match eval_lines(reg, pl, seq![], true, 0) {
            Err(e) => Err(e),
            Ok(vals) => Ok(join_lines(canon_if(assemble(pl, vals), trim))),
        },
    }
}

/// The length bound in `eval_name` never decides: along a chain of
/// distinct registered tiles, a further registered name not on the chain
/// leaves it shorter than the registry.
pub proof fn lemma_path_shorter_than_registry(reg: Registry, name: Seq<char>, path: Seq<Seq<char>>)
    requires
        path.no_duplicates(),
        forall|i: int| 0 <= i < path.len() ==> reg.raw_get(#[trigger] path[i]) is Some,
        !path.contains(name),
        reg.raw_get(name) is Some,
    ensures
        path.len() < reg.size(),
{
    let p = path.push(name);
    assert(p.no_duplicates()) by {
        assert forall|i: int, j: int| 0 <= i < p.len() && 0 <= j < p.len() && i != j implies p[i] != p[j] by {
            if i < path.len() && j < path.len() {
                assert(p[i] == path[i] && p[j] == path[j]);
            } else if i < path.len() {
                assert(p[i] == path[i]);
                assert(path.contains(p[i]));
            } else if j < path.len() {
                assert(p[j] == path[j]);
                assert(path.contains(p[j]));
            }
        }
    }
    assert forall|i: int| 0 <= i < p.len() implies reg.raw_get(#[trigger] p[i]) is Some by {
        if i < path.len() {
            assert(p[i] == path[i]);
        }
    }
    reg.lemma_size_bound(p);
}

/// A reference resolves to the same value whichever chain of tiles it is
/// reached through: when resolving `name` succeeds under two ancestor
/// paths, both give the same value (so a tile shared by several others, as
/// in a diamond, contributes the same text everywhere).
pub proof fn lemma_resolution_independent_of_path(
    reg: Registry,
    name: Seq<char>,
    p1: Seq<Seq<char>>,
    p2: Seq<Seq<char>>,
)
    requires
        eval_name(reg, name, p1) is Ok,
        eval_name(reg, name, p2) is Ok,
    ensures
        eval_name(reg, name, p1) == eval_name(reg, name, p2),
    decreases reg.size() - p1.len(), 0int, 0int,
{
    if reg.raw_get(name) is Some {
        let t = reg.raw_get(name)->0;
        let pl = parse_all(text_lines(strings_view(t.lns@)))->0;
        lemma_lines_independent_of_path(reg, pl, p1.push(name), p2.push(name), false, 0);
    }
}

proof fn lemma_lines_independent_of_path(
    reg: Registry,
    pl: Seq<(Seq<Seq<char>>, Seq<Seq<char>>)>,
    p1: Seq<Seq<char>>,
    p2: Seq<Seq<char>>,
    top: bool,
    i: int,
)
    requires
        eval_lines(reg, pl, p1, top, i) is Ok,
        eval_lines(reg, pl, p2, top, i) is Ok,
    ensures
        eval_lines(reg, pl, p1, top, i) == eval_lines(reg, pl, p2, top, i),
    decreases reg.size() - p1.len(), 2int, pl.len() - i,
{
    if 0 <= i < pl.len() {
        lemma_names_independent_of_path(reg, pl[i].1, p1, p2, top, 0);
        lemma_lines_independent_of_path(reg, pl, p1, p2, top, i + 1);
    }
}

proof fn lemma_names_independent_of_path(
    reg: Registry,
    names: Seq<Seq<char>>,
    p1: Seq<Seq<char>>,
    p2: Seq<Seq<char>>,
    top: bool,
    j: int,
)
    requires
        eval_names(reg, names, p1, top, j) is Ok,
        eval_names(reg, names, p2, top, j) is Ok,
    ensures
        eval_names(reg, names, p1, top, j) == eval_names(reg, names, p2, top, j),
    decreases reg.size() - p1.len(), 1int, names.len() - j,
{
    if 0 <= j < names.len() {
        if !(top && reg.raw_get(names[j]) is None) {
            lemma_resolution_independent_of_path(reg, names[j], p1, p2);
        }
        lemma_names_independent_of_path(reg, names, p1, p2, top, j + 1);
    }
}

/// The registered tile `a` refers to `b` in one of its lines.
pub open spec fn refers(reg: Registry, a: Seq<char>, b: Seq<char>) -> bool {
    reg.raw_get(a) matches Some(t) && (parse_all(text_lines(strings_view(t.lns@))) matches Some(pl)
        && exists|i: int| 0 <= i < pl.len() && #[trigger] pl[i].1.contains(b))
}

/// `c` is a chain of references that ends at a name already being
/// resolved: one of the ancestors in `path`, or an earlier name of `c`.
pub open spec fn returns_to(reg: Registry, path: Seq<Seq<char>>, c: Seq<Seq<char>>) -> bool {
    &&& c.len() > 0
    &&& forall|k: int| 0 <= k < c.len() - 1 ==> #[trigger] refers(reg, c[k], c[k + 1])
    &&& (path + c.drop_last()).contains(c.last())
}

/// Resolution fails with `RecursionDetected` only because of a cycle:
/// some chain of references from `name` comes back to a name already being
/// resolved (with an empty `path`, a cycle reachable from `name`).
pub proof fn lemma_recursion_has_cycle(reg: Registry, name: Seq<char>, path: Seq<Seq<char>>)
    requires
        path.no_duplicates(),
        forall|i: int| 0 <= i < path.len() ==> reg.raw_get(#[trigger] path[i]) is Some,
        eval_name(reg, name, path) == Err::<Option<Seq<char>>, TileError>(TileError::RecursionDetected),
    ensures
        exists|c: Seq<Seq<char>>| #[trigger] returns_to(reg, path, c) && c[0] == name,
    decreases reg.size() - path.len(), 0int, 0int,
{
    if path.contains(name) {
        let c = seq![name];
        assert(c.drop_last() =~= seq![]);
        assert(path + c.drop_last() =~= path);
        assert(returns_to(reg, path, c));
    } else {
        lemma_path_shorter_than_registry(reg, name, path);
        let t = reg.raw_get(name)->0;
        let pl = parse_all(text_lines(strings_view(t.lns@)))->0;
        let p2 = path.push(name);
        assert(p2.no_duplicates()) by {
            assert forall|i: int, j: int| 0 <= i < p2.len() && 0 <= j < p2.len() && i != j implies p2[i] != p2[j] by {
                if i < path.len() && j < path.len() {
                    assert(p2[i] == path[i] && p2[j] == path[j]);
                } else if i < path.len() {
                    assert(p2[i] == path[i]);
                    assert(path.contains(p2[i]));
                } else if j < path.len() {
                    assert(p2[j] == path[j]);
                    assert(path.contains(p2[j]));
                }
            }
        }
        assert forall|i: int| 0 <= i < p2.len() implies reg.raw_get(#[trigger] p2[i]) is Some by {
            if i < path.len() {
                assert(p2[i] == path[i]);
            }
        }
        lemma_lines_recursion_has_cycle(reg, pl, p2, 0);
        let c1 = choose|c: Seq<Seq<char>>| #[trigger] returns_to(reg, p2, c) && exists|i: int| 0 <= i < pl.len() && #[trigger] pl[i].1.contains(c[0]);
        let c = seq![name] + c1;
        assert(refers(reg, name, c1[0]));
        assert forall|k: int| 0 <= k < c.len() - 1 implies #[trigger] refers(reg, c[k], c[k + 1]) by {
            if k == 0 {
                assert(c[0] == name && c[1] == c1[0]);
            } else {
                assert(c[k] == c1[k - 1] && c[k + 1] == c1[k]);
                assert(refers(reg, c1[k - 1], c1[(k - 1) + 1]));
            }
        }
        assert(path + c.drop_last() =~= p2 + c1.drop_last());
        assert(c.last() == c1.last());
        assert(returns_to(reg, path, c));
    }
}

proof fn lemma_lines_recursion_has_cycle(
    reg: Registry,
    pl: Seq<(Seq<Seq<char>>, Seq<Seq<char>>)>,
    path: Seq<Seq<char>>,
    i: int,
)
    requires
        path.no_duplicates(),
        forall|k: int| 0 <= k < path.len() ==> reg.raw_get(#[trigger] path[k]) is Some,
        eval_lines(reg, pl, path, false, i) == Err::<Seq<Seq<Option<Seq<char>>>>, TileError>(TileError::RecursionDetected),
    ensures
        exists|c: Seq<Seq<char>>| #[trigger] returns_to(reg, path, c) && exists|k: int| 0 <= k < pl.len() && #[trigger] pl[k].1.contains(c[0]),
    decreases reg.size() - path.len(), 2int, pl.len() - i,
{
    if eval_names(reg, pl[i].1, path, false, 0) is Err {
        lemma_names_recursion_has_cycle(reg, pl[i].1, path, 0);
        let c = choose|c: Seq<Seq<char>>| #[trigger] returns_to(reg, path, c) && pl[i].1.contains(c[0]);
        assert(returns_to(reg, path, c) && pl[i].1.contains(c[0]));
    } else {
        lemma_lines_recursion_has_cycle(reg, pl, path, i + 1);
    }
}

proof fn lemma_names_recursion_has_cycle(
    reg: Registry,
    names: Seq<Seq<char>>,
    path: Seq<Seq<char>>,
    j: int,
)
    requires
        path.no_duplicates(),
        forall|k: int| 0 <= k < path.len() ==> reg.raw_get(#[trigger] path[k]) is Some,
        eval_names(reg, names, path, false, j) == Err::<Seq<Option<Seq<char>>>, TileError>(TileError::RecursionDetected),
    ensures
        exists|c: Seq<Seq<char>>| #[trigger] returns_to(reg, path, c) && names.contains(c[0]),
    decreases reg.size() - path.len(), 1int, names.len() - j,
{
    if eval_name(reg, names[j], path) is Err {
        lemma_recursion_has_cycle(reg, names[j], path);
        let c = choose|c: Seq<Seq<char>>| #[trigger] returns_to(reg, path, c) && c[0] == names[j];
        assert(names.contains(c[0]));
    } else {
        lemma_names_recursion_has_cycle(reg, names, path, j + 1);
    }
}

/// A chain of references that comes back to a name being resolved makes
/// resolving its first name fail (with an empty `path`: a cycle reachable
/// from `name` is never resolved to a value).
pub proof fn lemma_cycle_fails(reg: Registry, path: Seq<Seq<char>>, c: Seq<Seq<char>>)
    requires
        returns_to(reg, path, c),
    ensures
        eval_name(reg, c[0], path) is Err,
    decreases c.len(),
{
    if c.len() == 1 {
        assert(c.drop_last() =~= seq![]);
        assert(path + c.drop_last() =~= path);
    } else if eval_name(reg, c[0], path) is Ok {
        let n = c[0];
        assert(refers(reg, c[0], c[1]));
        assert(!path.contains(n));
        let t = reg.raw_get(n)->0;
        let pl = parse_all(text_lines(strings_view(t.lns@)))->0;
        let p2 = path.push(n);
        let i = choose|i: int| 0 <= i < pl.len() && #[trigger] pl[i].1.contains(c[1]);
        lemma_lines_ok_each(reg, pl, p2, 0, i);
        let j = choose|j: int| 0 <= j < pl[i].1.len() && pl[i].1[j] == c[1];
        lemma_names_ok_each(reg, pl[i].1, p2, 0, j);
        let c2 = c.drop_first();
        assert forall|k: int| 0 <= k < c2.len() - 1 implies #[trigger] refers(reg, c2[k], c2[k + 1]) by {
            assert(c2[k] == c[k + 1] && c2[k + 1] == c[(k + 1) + 1]);
            assert(refers(reg, c[k + 1], c[(k + 1) + 1]));
        }
        assert(p2 + c2.drop_last() =~= path + c.drop_last());
        assert(c2.last() == c.last());
        assert(returns_to(reg, p2, c2));
        lemma_cycle_fails(reg, p2, c2);
    }
}

proof fn lemma_lines_ok_each(
    reg: Registry,
    pl: Seq<(Seq<Seq<char>>, Seq<Seq<char>>)>,
    path: Seq<Seq<char>>,
    i: int,
    k: int,
)
    requires
        0 <= i <= k < pl.len(),
        eval_lines(reg, pl, path, false, i) is Ok,
    ensures
        eval_names(reg, pl[k].1, path, false, 0) is Ok,
    decreases k - i,
{
    if i < k {
        lemma_lines_ok_each(reg, pl, path, i + 1, k);
    }
}

proof fn lemma_names_ok_each(reg: Registry, names: Seq<Seq<char>>, path: Seq<Seq<char>>, j: int, k: int)
    requires
        0 <= j <= k < names.len(),
        eval_names(reg, names, path, false, j) is Ok,
    ensures
        eval_name(reg, names[k], path) is Ok,
    decreases k - j,
{
    if j < k {
        lemma_names_ok_each(reg, names, path, j + 1, k);
    }
}

pub open spec fn opt_view(o: Option<Vec<char>>) -> Option<Seq<char>> {
    match o {
        Some(v) => Some(v@),
        None => None,
    }
}

pub open spec fn opts_view(s: Seq<Option<Vec<char>>>) -> Seq<Option<Seq<char>>> {
    s.map_values(|o: Option<Vec<char>>| opt_view(o))
}

pub open spec fn grid_view(s: Seq<Vec<Option<Vec<char>>>>) -> Seq<Seq<Option<Seq<char>>>> {
    s.map_values(|v: Vec<Option<Vec<char>>>| opts_view(v@))
}

pub open spec fn parsed_view(p: Seq<(Vec<Vec<char>>, Vec<Vec<char>>)>) -> Seq<(Seq<Seq<char>>, Seq<Seq<char>>)> {
    p.map_values(|e: (Vec<Vec<char>>, Vec<Vec<char>>)| (lines_view(e.0@), lines_view(e.1@)))
}

/// The lines of a block as rendering sees them (see `text_lines`).
pub fn text_lines_of(lns: &Vec<String>) -> (r: Vec<Vec<char>>)
    ensures
        lines_view(r@) == text_lines(strings_view(lns@)),
{
    let ls = lines_of_strings(lns);
    let joined = join_text(&ls);
    split_text(&joined)
}

/// Scans every line (see `parse_all`).
pub fn parse_text(ls: &Vec<Vec<char>>) -> (r: Result<Vec<(Vec<Vec<char>>, Vec<Vec<char>>)>, TileError>)
    ensures
        match r {
            Ok(p) => parse_all(lines_view(ls@)) == Some(parsed_view(p@)),
            Err(e) => e == TileError::MalformedReference && parse_all(lines_view(ls@)) is None,
        },
{
    let ghost lv = lines_view(ls@);
    let mut p: Vec<(Vec<Vec<char>>, Vec<Vec<char>>)> = Vec::new();
    let mut i: usize = 0;
    while i < ls.len()
        invariant
            lv == lines_view(ls@),
            i <= ls.len(),
            p.len() == i,
            forall|j: int| 0 <= j < i ==> (#[trigger] parse_line(lv[j])) is Some,
            forall|j: int| 0 <= j < i ==> #[trigger] parsed_view(p@)[j] == parse_line(lv[j])->0,
        decreases ls.len() - i,
    {
        match scan_line(&ls[i]) {
            Err(e) => {
                assert(parse_line(lv[i as int]) is None);
                return Err(e);
            },
            Ok(q) => {
                let ghost before = p@;
                p.push(q);
                proof {
                    assert forall|j: int| 0 <= j < i + 1 implies #[trigger] parsed_view(p@)[j] == parse_line(lv[j])->0 by {
                        if j < i {
                            assert(p@[j] == before[j]);
                            assert(parsed_view(before)[j] == parse_line(lv[j])->0);
                        }
                    }
                }
            },
        }
        i = i + 1;
    }
    assert(parsed_view(p@) =~= lv.map_values(|l: Seq<char>| parse_line(l)->0));
    Ok(p)
}

/// A one-line block holding a copy of `l`.
fn single(l: &Vec<char>) -> (r: Vec<Vec<char>>)
    ensures
        lines_view(r@) == seq![l@],
{
    let mut r: Vec<Vec<char>> = Vec::new();
    r.push(copy_chars(l));
    assert(lines_view(r@) =~= seq![l@]);
    r
}

/// The lines one parsed line renders to (see `render_line`).
pub fn render_line_of(
    texts: &Vec<Vec<char>>,
    names: &Vec<Vec<char>>,
    vals: &Vec<Option<Vec<char>>>,
) -> (r: Vec<Vec<char>>)
    requires
        texts.len() == names.len() + 1,
        vals.len() == names.len(),
    ensures
        lines_view(r@) == render_line((lines_view(texts@), lines_view(names@)), opts_view(vals@)),
{
    let ghost tv = lines_view(texts@);
    let ghost nv = lines_view(names@);
    let ghost vv = opts_view(vals@);
    let mut curr: Vec<Vec<char>> = Vec::new();
    let mut i: usize = 0;
    assert(lines_view(curr@) =~= seq![]);
    while i < names.len()
        invariant
            texts.len() == names.len() + 1,
            vals.len() == names.len(),
            tv == lines_view(texts@),
            nv == lines_view(names@),
            vv == opts_view(vals@),
            i <= names.len(),
            render_line((tv, nv), vv) == render_from(lines_view(curr@), tv, nv, vv, i as int),
        decreases names.len() - i,
    {
        let t = single(&texts[i]);
        append_lines(&mut curr, &t);
        match &vals[i] {
            Some(v) => {
                let parts = split_text(v);
                append_lines(&mut curr, &parts);
            },
            None => {},
        }
        i = i + 1;
    }
    let last = names.len();
    assert(tv.last() == texts@[last as int]@);
    if !(names.len() > 0 && texts[last].len() == 0) {
        let t = single(&texts[last]);
        append_lines(&mut curr, &t);
    }
    curr
}

/// All parsed lines rendered one after the other (see `assemble`).
pub fn assemble_lines(
    pl: &Vec<(Vec<Vec<char>>, Vec<Vec<char>>)>,
    vals: &Vec<Vec<Option<Vec<char>>>>,
) -> (r: Vec<Vec<char>>)
    requires
        pl.len() == vals.len(),
        forall|i: int| 0 <= i < pl.len() ==> (#[trigger] pl@[i]).0.len() == pl@[i].1.len() + 1,
        forall|i: int| 0 <= i < pl.len() ==> (#[trigger] vals@[i]).len() == pl@[i].1.len(),
    ensures
        lines_view(r@) == assemble(parsed_view(pl@), grid_view(vals@)),
{
    let ghost pv = parsed_view(pl@);
    let ghost gv = grid_view(vals@);
    let mut res: Vec<Vec<char>> = Vec::new();
    let mut i: usize = 0;
    while i < pl.len()
        invariant
            pl.len() == vals.len(),
            forall|i: int| 0 <= i < pl.len() ==> (#[trigger] pl@[i]).0.len() == pl@[i].1.len() + 1,
            forall|i: int| 0 <= i < pl.len() ==> (#[trigger] vals@[i]).len() == pl@[i].1.len(),
            pv == parsed_view(pl@),
            gv == grid_view(vals@),
            i <= pl.len(),
            lines_view(res@) == assemble(pv.subrange(0, i as int), gv.subrange(0, i as int)),
        decreases pl.len() - i,
    {
        let curr = render_line_of(&pl[i].0, &pl[i].1, &vals[i]);
        let ghost before = lines_view(res@);
        let ghost n0 = res.len();
        let mut k: usize = 0;
        while k < curr.len()
            invariant
                k <= curr.len(),
                n0 == before.len(),
                res.len() == n0 + k,
                forall|j: int| 0 <= j < n0 ==> (#[trigger] res@[j])@ == before[j],
                forall|j: int| 0 <= j < k ==> (#[trigger] res@[n0 + j])@ == curr@[j]@,
            decreases curr.len() - k,
        {
            res.push(copy_chars(&curr[k]));
            k = k + 1;
        }
        assert(lines_view(res@) =~= before + lines_view(curr@)) by {
            assert forall|j: int| n0 <= j < res.len() implies (#[trigger] res@[j])@ == curr@[j - n0]@ by {
                assert(res@[n0 + (j - n0)] == res@[j]);
            }
        }
        proof {
            let p1 = pv.subrange(0, i + 1);
            let g1 = gv.subrange(0, i + 1);
            assert(p1.drop_last() =~= pv.subrange(0, i as int));
            assert(g1.drop_last() =~= gv.subrange(0, i as int));
            assert(p1.last() == pv[i as int]);
            assert(g1.last() == gv[i as int]);
        }
        i = i + 1;
    }
    assert(pv.subrange(0, i as int) =~= pv);
    assert(gv.subrange(0, i as int) =~= gv);
    res
}

/// Whether `name` is on the path.
pub fn on_path(path: &Vec<Vec<char>>, name: &Vec<char>) -> (r: bool)
    ensures
        r == lines_view(path@).contains(name@),
{
    let mut i: usize = 0;
    while i < path.len()
        invariant
            i <= path.len(),
            forall|j: int| 0 <= j < i ==> path@[j]@ != name@,
        decreases path.len() - i,
    {
        if same_chars(&path[i], name) {
            assert(lines_view(path@)[i as int] == name@);
            return true;
        }
        i = i + 1;
    }
    proof {
        if lines_view(path@).contains(name@) {
            let j = choose|j: int| 0 <= j < lines_view(path@).len() && lines_view(path@)[j] == name@;
            assert(path@[j]@ == name@);
        }
    }
    false
}

/// The path with `name` added at its end.
fn extend_path(path: &Vec<Vec<char>>, name: &Vec<char>) -> (r: Vec<Vec<char>>)
    ensures
        lines_view(r@) == lines_view(path@).push(name@),
{
    let mut r: Vec<Vec<char>> = Vec::new();
    let mut i: usize = 0;
    while i < path.len()
        invariant
            i <= path.len(),
            r.len() == i,
            forall|j: int| 0 <= j < i ==> (#[trigger] r@[j])@ == path@[j]@,
        decreases path.len() - i,
    {
        r.push(copy_chars(&path[i]));
        i = i + 1;
    }
    r.push(copy_chars(name));
    assert(lines_view(r@) =~= lines_view(path@).push(name@));
    r
}

/// The resolved value of a reference to `name` (see `eval_name`).
pub fn eval_name_of(reg: &Registry, name: &Vec<char>, path: &Vec<Vec<char>>) -> (r: Result<Option<Vec<char>>, TileError>)
    ensures
        match r {
            Ok(v) => eval_name(*reg, name@, lines_view(path@)) == Ok::<Option<Seq<char>>, TileError>(opt_view(v)),
            Err(e) => eval_name(*reg, name@, lines_view(path@)) == Err::<Option<Seq<char>>, TileError>(e),
        },
    decreases reg.size() - path@.len(), 0int, 0int,
{
    if on_path(path, name) {
        return Err(TileError::RecursionDetected);
    }
    match reg.get(name) {
        None => match reg.get_resolved(name) {
            Some(v) => Ok(Some(copy_chars(v))),
            None => Ok(None),
        },
        Some(t) => {
            if path.len() >= reg.len() {
                return Err(TileError::RecursionDetected);
            }
            let ls = text_lines_of(&t.lns);
            let pl = match parse_text(&ls) {
                Err(e) => {
                    return Err(e);
                },
                Ok(pl) => pl,
            };
            let p2 = extend_path(path, name);
            assert(p2@.len() == lines_view(p2@).len());
            assert(p2@.len() == path@.len() + 1);
            let vals = match eval_lines_of(reg, &pl, &p2, false) {
                Err(e) => {
                    return Err(e);
                },
                Ok(v) => v,
            };
            proof {
                lemma_parsed_shape(lines_view(ls@), pl@);
            }
            let lines = assemble_lines(&pl, &vals);
            let fin = if t.do_trimming {
                canonicalize(&lines)
            } else {
                lines
            };
            Ok(Some(join_text(&fin)))
        },
    }
}

/// The parts of every parsed line have one more text than names.
proof fn lemma_parsed_shape(ls: Seq<Seq<char>>, p: Seq<(Vec<Vec<char>>, Vec<Vec<char>>)>)
    requires
        parse_all(ls) == Some(parsed_view(p)),
    ensures
        forall|i: int| 0 <= i < p.len() ==> (#[trigger] p[i]).0.len() == p[i].1.len() + 1,
{
    assert(parsed_view(p).len() == p.len());
    assert(ls.map_values(|l: Seq<char>| parse_line(l)->0).len() == ls.len());
    assert forall|i: int| 0 <= i < p.len() implies (#[trigger] p[i]).0.len() == p[i].1.len() + 1 by {
        assert(parsed_view(p)[i] == ls.map_values(|l: Seq<char>| parse_line(l)->0)[i]);
        assert(parsed_view(p)[i] == parse_line(ls[i])->0);
        assert(parse_line(ls[i]) is Some);
        crate::scan::lemma_parse_from_shape(ls[i], 0);
    }
}

/// The values of the references of every parsed line (see `eval_lines`).
pub fn eval_lines_of(
    reg: &Registry,
    pl: &Vec<(Vec<Vec<char>>, Vec<Vec<char>>)>,
    path: &Vec<Vec<char>>,
    top: bool,
) -> (r: Result<Vec<Vec<Option<Vec<char>>>>, TileError>)
    ensures
        match r {
            Ok(v) => eval_lines(*reg, parsed_view(pl@), lines_view(path@), top, 0) == Ok::<Seq<Seq<Option<Seq<char>>>>, TileError>(grid_view(v@))
                && v.len() == pl.len()
                && forall|i: int| 0 <= i < pl.len() ==> (#[trigger] v@[i]).len() == pl@[i].1.len(),
            Err(e) => eval_lines(*reg, parsed_view(pl@), lines_view(path@), top, 0) == Err::<Seq<Seq<Option<Seq<char>>>>, TileError>(e),
        },
    decreases reg.size() - path@.len(), 2int, 0int,
{
    let ghost pv = parsed_view(pl@);
    let ghost lp = lines_view(path@);
    let mut out: Vec<Vec<Option<Vec<char>>>> = Vec::new();
    let mut i: usize = 0;
    while i < pl.len()
        invariant
            pv == parsed_view(pl@),
            lp == lines_view(path@),
            i <= pl.len(),
            out.len() == i,
            forall|k: int| 0 <= k < i ==> (#[trigger] out@[k]).len() == pl@[k].1.len(),
            eval_lines(*reg, pv, lp, top, 0) == match eval_lines(*reg, pv, lp, top, i as int) {
                Ok(rest) => Ok(grid_view(out@) + rest),
                Err(e) => Err(e),
            },
        decreases pl.len() - i,
    {
        let v = match eval_names_of(reg, &pl[i].1, path, top) {
            Err(e) => {
                assert(pv[i as int].1 == lines_view(pl@[i as int].1@));
                return Err(e);
            },
            Ok(v) => v,
        };
        assert(pv[i as int].1 == lines_view(pl@[i as int].1@));
        let ghost before = out@;
        out.push(v);
        assert(grid_view(out@) =~= grid_view(before) + seq![opts_view(v@)]);
        proof {
            let rest_n = eval_lines(*reg, pv, lp, top, i + 1);
            assert(eval_names(*reg, pv[i as int].1, lp, top, 0) == Ok::<Seq<Option<Seq<char>>>, TileError>(opts_view(v@)));
            match rest_n {
                Ok(rs) => {
                    assert(eval_lines(*reg, pv, lp, top, i as int) == Ok::<Seq<Seq<Option<Seq<char>>>>, TileError>(seq![opts_view(v@)] + rs));
                    assert(grid_view(before) + (seq![opts_view(v@)] + rs) =~= grid_view(out@) + rs);
                },
                Err(e) => {
                    assert(eval_lines(*reg, pv, lp, top, i as int) == Err::<Seq<Seq<Option<Seq<char>>>>, TileError>(e));
                },
            }
        }
        i = i + 1;
    }
    assert(grid_view(out@) + seq![] =~= grid_view(out@));
    Ok(out)
}

/// The values of `names` (see `eval_names`).
pub fn eval_names_of(
    reg: &Registry,
    names: &Vec<Vec<char>>,
    path: &Vec<Vec<char>>,
    top: bool,
) -> (r: Result<Vec<Option<Vec<char>>>, TileError>)
    ensures
        match r {
            Ok(v) => eval_names(*reg, lines_view(names@), lines_view(path@), top, 0) == Ok::<Seq<Option<Seq<char>>>, TileError>(opts_view(v@))
                && v.len() == names.len(),
            Err(e) => eval_names(*reg, lines_view(names@), lines_view(path@), top, 0) == Err::<Seq<Option<Seq<char>>>, TileError>(e),
        },
    decreases reg.size() - path@.len(), 1int, 0int,
{
    let ghost nv = lines_view(names@);
    let ghost lp = lines_view(path@);
    let mut out: Vec<Option<Vec<char>>> = Vec::new();
    let mut j: usize = 0;
    while j < names.len()
        invariant
            nv == lines_view(names@),
            lp == lines_view(path@),
            j <= names.len(),
            out.len() == j,
            eval_names(*reg, nv, lp, top, 0) == match eval_names(*reg, nv, lp, top, j as int) {
                Ok(rest) => Ok(opts_view(out@) + rest),
                Err(e) => Err(e),
            },
        decreases names.len() - j,
    {
        let v = if top && reg.get(&names[j]).is_none() {
            None
        } else {
            match eval_name_of(reg, &names[j], path) {
                Err(e) => {
                    return Err(e);
                },
                Ok(v) => v,
            }
        };
        let ghost before = out@;
        out.push(v);
        assert(opts_view(out@) =~= opts_view(before) + seq![opt_view(v)]);
        proof {
            let rest_n = eval_names(*reg, nv, lp, top, j + 1);
            let first = if top && reg.raw_get(nv[j as int]) is None {
                Ok::<Option<Seq<char>>, TileError>(None)
            } else {
                eval_name(*reg, nv[j as int], lp)
            };
            assert(first == Ok::<Option<Seq<char>>, TileError>(opt_view(v)));
            match rest_n {
                Ok(rs) => {
                    assert(eval_names(*reg, nv, lp, top, j as int) == Ok::<Seq<Option<Seq<char>>>, TileError>(seq![opt_view(v)] + rs));
                    assert(opts_view(before) + (seq![opt_view(v)] + rs) =~= opts_view(out@) + rs);
                },
                Err(e) => {
                    assert(eval_names(*reg, nv, lp, top, j as int) == Err::<Seq<Option<Seq<char>>>, TileError>(e));
                },
            }
        }
        j = j + 1;
    }
    assert(opts_view(out@) + seq![] =~= opts_view(out@));
    Ok(out)
}

/// Renders the lines `lns` in `reg` (see `render`).
pub fn render_text(reg: &Registry, lns: &Vec<String>, trim: bool) -> (r: Result<String, TileError>)
    ensures
        match r {
            Ok(s) => render(*reg, strings_view(lns@), trim) == Ok::<Seq<char>, TileError>(s@),
            Err(e) => render(*reg, strings_view(lns@), trim) == Err::<Seq<char>, TileError>(e),
        },
{
    let ls = text_lines_of(lns);
    let pl = match parse_text(&ls) {
        Err(e) => {
            return Err(e);
        },
        Ok(pl) => pl,
    };
    let empty: Vec<Vec<char>> = Vec::new();
    assert(lines_view(empty@) =~= seq![]);
    let vals = match eval_lines_of(reg, &pl, &empty, true) {
        Err(e) => {
            return Err(e);
        },
        Ok(v) => v,
    };
    proof {
        lemma_parsed_shape(lines_view(ls@), pl@);
    }
    let lines = assemble_lines(&pl, &vals);
    let fin = if trim {
        canonicalize(&lines)
    } else {
        lines
    };
    let text = join_text(&fin);
    Ok(crate::text::string_of(&text))
}

/// The stored resolved values of the references of the parsed lines.
pub open spec fn stored_vals(reg: Registry, pl: Seq<(Seq<Seq<char>>, Seq<Seq<char>>)>) -> Seq<Seq<Option<Seq<char>>>> {
    pl.map_values(|p: (Seq<Seq<char>>, Seq<Seq<char>>)| p.1.map_values(|n: Seq<char>| reg.resolved_get(n)))
}

/// The text that the lines `lns` render to when every reference takes the
/// resolved text stored for it, without resolving anything further.
pub open spec fn render_stored(reg: Registry, lns: Seq<Seq<char>>, trim: bool) -> Result<Seq<char>, TileError> {
    match parse_all(text_lines(lns)) {
        None => Err(TileError::MalformedReference),
        Some(pl) => Ok(join_lines(canon_if(assemble(pl, stored_vals(reg, pl)), trim))),
    }
}

/// Renders the lines `lns` from the stored resolved texts (see `render_stored`).
pub fn render_stored_text(reg: &Registry, lns: &Vec<String>, trim: bool) -> (r: Result<String, TileError>)
    ensures
        match r {
            Ok(s) => render_stored(*reg, strings_view(lns@), trim) == Ok::<Seq<char>, TileError>(s@),
            Err(e) => render_stored(*reg, strings_view(lns@), trim) == Err::<Seq<char>, TileError>(e),
        },
{
    let ls = text_lines_of(lns);
    let pl = match parse_text(&ls) {
        Err(e) => {
            return Err(e);
        },
        Ok(pl) => pl,
    };
    let ghost pv = parsed_view(pl@);
    let mut vals: Vec<Vec<Option<Vec<char>>>> = Vec::new();
    let mut i: usize = 0;
    while i < pl.len()
        invariant
            pv == parsed_view(pl@),
            i <= pl.len(),
            vals.len() == i,
            forall|k: int| 0 <= k < i ==> (#[trigger] vals@[k]).len() == pl@[k].1.len(),
            forall|k: int| 0 <= k < i ==> #[trigger] opts_view(vals@[k]@) == stored_vals(*reg, pv)[k],
        decreases pl.len() - i,
    {
        let names = &pl[i].1;
        let mut row: Vec<Option<Vec<char>>> = Vec::new();
        let mut j: usize = 0;
        while j < names.len()
            invariant
                i < pl.len(),
                names == &pl@[i as int].1,
                j <= names.len(),
                row.len() == j,
                forall|q: int| 0 <= q < j ==> #[trigger] opt_view(row@[q]) == reg.resolved_get(names@[q]@),
            decreases names.len() - j,
        {
            let v = match reg.get_resolved(&names[j]) {
                Some(v) => Some(copy_chars(v)),
                None => None,
            };
            row.push(v);
            j = j + 1;
        }
        proof {
            assert(pv[i as int].1 == lines_view(pl@[i as int].1@));
            assert(opts_view(row@) =~= stored_vals(*reg, pv)[i as int]);
        }
        vals.push(row);
        i = i + 1;
    }
    proof {
        lemma_parsed_shape(lines_view(ls@), pl@);
        assert(grid_view(vals@) =~= stored_vals(*reg, pv));
    }
    let lines = assemble_lines(&pl, &vals);
    let fin = if trim {
        canonicalize(&lines)
    } else {
        lines
    };
    let text = join_text(&fin);
    Ok(crate::text::string_of(&text))
}

} // verus!
