//! The reference graph: which names the lines of a block reach through
//! registered tiles.

use vstd::prelude::*;
use crate::TileError;
use crate::registry::{copy_chars, Registry};
use crate::resolve::on_path;
use crate::scan::{parse_line, scan_line};
use crate::text::{lines_of_strings, lines_view, strings_view};
use crate::RTile;

verus! {

/// The reference names in a line, in order (none when it is malformed).
pub open spec fn names_of(l: Seq<char>) -> Seq<Seq<char>> {
    match parse_line(l) {
        Some(p) => p.1,
        None => seq![],
    }
}

/// One of the lines refers to `n`.
pub open spec fn mentions(ls: Seq<Seq<char>>, n: Seq<char>) -> bool {
    exists|i: int| 0 <= i < ls.len() && #[trigger] names_of(ls[i]).contains(n)
}

/// Every line is free of unclosed `@{`.
pub open spec fn lines_ok(ls: Seq<Seq<char>>) -> bool {
    forall|i: int| 0 <= i < ls.len() ==> (#[trigger] parse_line(ls[i])) is Some
}

/// The lines of a tile as stored.
pub open spec fn tile_lines(t: RTile) -> Seq<Seq<char>> {
    strings_view(t.lns@)
}

/// `a` is a registered tile whose lines refer to `b`.
pub open spec fn step(reg: Registry, a: Seq<char>, b: Seq<char>) -> bool {
    reg.raw_get(a) matches Some(t) && mentions(tile_lines(t), b)
}

/// `c` is a chain of references that starts at a name the lines `ls`
/// refer to and goes on through registered tiles.
pub open spec fn is_chain(reg: Registry, ls: Seq<Seq<char>>, c: Seq<Seq<char>>) -> bool {
    &&& c.len() > 0
    &&& mentions(ls, c[0])
    &&& forall|k: int| 0 <= k < c.len() - 1 ==> #[trigger] step(reg, c[k], c[k + 1])
}

/// Some chain of references from the lines `ls` ends at `n`.
pub open spec fn reachable(reg: Registry, ls: Seq<Seq<char>>, n: Seq<char>) -> bool {
    exists|c: Seq<Seq<char>>| #[trigger] is_chain(reg, ls, c) && c.last() == n
}

/// The lines `ls` and the lines of every registered tile they reach are
/// free of unclosed `@{`.
pub open spec fn closure_ok(reg: Registry, ls: Seq<Seq<char>>) -> bool {
    &&& lines_ok(ls)
    &&& forall|n: Seq<char>| #[trigger] reachable(reg, ls, n) ==> (reg.raw_get(n) matches Some(t) ==> lines_ok(tile_lines(t)))
}

/// The state of a walk over the reference graph from `ls`: `vis` holds the
/// registered names met, `mis` the unregistered ones, `work` the met tiles
/// whose lines are still to be read.
pub open spec fn walk_inv(
    reg: Registry,
    ls: Seq<Seq<char>>,
    vis: Seq<Seq<char>>,
    mis: Seq<Seq<char>>,
    work: Seq<Seq<char>>,
) -> bool {
    &&& vis.no_duplicates()
    &&& mis.no_duplicates()
    &&& work.no_duplicates()
    &&& forall|i: int| 0 <= i < vis.len() ==> reg.raw_get(#[trigger] vis[i]) is Some && reachable(reg, ls, vis[i])
    &&& forall|i: int| 0 <= i < mis.len() ==> reg.raw_get(#[trigger] mis[i]) is None && reachable(reg, ls, mis[i])
    &&& forall|i: int| 0 <= i < work.len() ==> vis.contains(#[trigger] work[i])
    &&& forall|v: Seq<char>| #[trigger] vis.contains(v) && !work.contains(v) ==> done(reg, v, vis, mis)
}

/// The lines of the tile `v` are well formed and all they refer to has been met.
pub open spec fn done(reg: Registry, v: Seq<char>, vis: Seq<Seq<char>>, mis: Seq<Seq<char>>) -> bool {
    reg.raw_get(v) matches Some(t) && (lines_ok(tile_lines(t)) && forall|n: Seq<char>| #[trigger] mentions(tile_lines(t), n) ==> vis.contains(n) || mis.contains(n))
}

/// Where the lines being read come from: the block itself, or a met tile.
pub open spec fn source_ok(reg: Registry, ls: Seq<Seq<char>>, lines: Seq<Seq<char>>, from: Option<Seq<char>>) -> bool {
    match from {
        None => lines == ls,
        Some(v) => reachable(reg, ls, v) && (reg.raw_get(v) matches Some(t) && tile_lines(t) == lines),
    }
}

proof fn lemma_reach_from(reg: Registry, ls: Seq<Seq<char>>, lines: Seq<Seq<char>>, from: Option<Seq<char>>, n: Seq<char>)
    requires
        source_ok(reg, ls, lines, from),
        mentions(lines, n),
    ensures
        reachable(reg, ls, n),
{
    match from {
        None => {
            let c = seq![n];
            assert(is_chain(reg, ls, c));
        },
        Some(v) => {
            let c = choose|c: Seq<Seq<char>>| #[trigger] is_chain(reg, ls, c) && c.last() == v;
            let c2 = c.push(n);
            assert forall|k: int| 0 <= k < c2.len() - 1 implies #[trigger] step(reg, c2[k], c2[k + 1]) by {
                if k < c.len() - 1 {
                    assert(c2[k] == c[k] && c2[k + 1] == c[k + 1]);
                    assert(step(reg, c[k], c[k + 1]));
                } else {
                    assert(c2[k] == v && c2[k + 1] == n);
                }
            }
            assert(c2[0] == c[0]);
            assert(is_chain(reg, ls, c2));
            assert(c2.last() == n);
        },
    }
}

/// Reads the references of `lines` into the walk: each name not met before
/// is added to `vis` and `work` when registered, else to `mis`.
fn note_refs(
    reg: &Registry,
    lines: &Vec<Vec<char>>,
    vis: &mut Vec<Vec<char>>,
    mis: &mut Vec<Vec<char>>,
    work: &mut Vec<Vec<char>>,
    Ghost(ls): Ghost<Seq<Seq<char>>>,
    Ghost(from): Ghost<Option<Seq<char>>>,
) -> (r: Result<(), TileError>)
    requires
        walk_inv(*reg, ls, lines_view(old(vis)@), lines_view(old(mis)@), lines_view(old(work)@)),
        source_ok(*reg, ls, lines_view(lines@), from),
    ensures
        walk_inv(*reg, ls, lines_view(final(vis)@), lines_view(final(mis)@), lines_view(final(work)@)),
        forall|n: Seq<char>| lines_view(old(vis)@).contains(n) ==> #[trigger] lines_view(final(vis)@).contains(n),
        forall|n: Seq<char>| lines_view(old(mis)@).contains(n) ==> #[trigger] lines_view(final(mis)@).contains(n),
        forall|n: Seq<char>| lines_view(old(work)@).contains(n) ==> #[trigger] lines_view(final(work)@).contains(n),
        final(work)@.len() - old(work)@.len() == final(vis)@.len() - old(vis)@.len(),
        final(vis)@.len() >= old(vis)@.len(),
        forall|q: int| 0 <= q < old(work)@.len() ==> #[trigger] final(work)@[q] == old(work)@[q],
        match r {
            Ok(()) => lines_ok(lines_view(lines@)) && forall|n: Seq<char>| #[trigger] mentions(lines_view(lines@), n) ==> lines_view(final(vis)@).contains(n) || lines_view(final(mis)@).contains(n),
            Err(e) => e == TileError::MalformedReference && !lines_ok(lines_view(lines@)),
        },
{
    let ghost lv = lines_view(lines@);
    let ghost vis0 = lines_view(vis@);
    let ghost mis0 = lines_view(mis@);
    let ghost work0 = lines_view(work@);
    let ghost wlen0 = work@.len();
    let ghost vlen0 = vis@.len();
    let ghost ws = work@;
    let mut i: usize = 0;
    while i < lines.len()
        invariant
            lv == lines_view(lines@),
            i <= lines.len(),
            vis0 == lines_view(old(vis)@),
            mis0 == lines_view(old(mis)@),
            work0 == lines_view(old(work)@),
            ws == old(work)@,
            vlen0 == old(vis)@.len(),
            walk_inv(*reg, ls, lines_view(vis@), lines_view(mis@), lines_view(work@)),
            source_ok(*reg, ls, lv, from),
            forall|n: Seq<char>| vis0.contains(n) ==> #[trigger] lines_view(vis@).contains(n),
            forall|n: Seq<char>| mis0.contains(n) ==> #[trigger] lines_view(mis@).contains(n),
            forall|n: Seq<char>| work0.contains(n) ==> #[trigger] lines_view(work@).contains(n),
            work@.len() - wlen0 == vis@.len() - vlen0,
            vis@.len() >= vlen0,
            wlen0 == ws.len(),
            forall|q: int| 0 <= q < wlen0 ==> #[trigger] work@[q] == ws[q],
            forall|k: int| 0 <= k < i ==> (#[trigger] parse_line(lv[k])) is Some,
            forall|k: int, n: Seq<char>| 0 <= k < i && #[trigger] names_of(lv[k]).contains(n) ==> lines_view(vis@).contains(n) || lines_view(mis@).contains(n),
        decreases lines.len() - i,
    {
        let (_texts, names) = match scan_line(&lines[i]) {
            Err(e) => {
                assert(lv[i as int] == lines@[i as int]@);
                assert(parse_line(lv[i as int]) is None);
                assert(!lines_ok(lv));
                return Err(e);
            },
            Ok(p) => p,
        };
        assert(names_of(lv[i as int]) == lines_view(names@));
        let mut j: usize = 0;
        while j < names.len()
            invariant
                lv == lines_view(lines@),
                i < lines.len(),
                vis0 == lines_view(old(vis)@),
                mis0 == lines_view(old(mis)@),
                work0 == lines_view(old(work)@),
                ws == old(work)@,
                vlen0 == old(vis)@.len(),
                j <= names.len(),
                names_of(lv[i as int]) == lines_view(names@),
                walk_inv(*reg, ls, lines_view(vis@), lines_view(mis@), lines_view(work@)),
                source_ok(*reg, ls, lv, from),
                forall|n: Seq<char>| vis0.contains(n) ==> #[trigger] lines_view(vis@).contains(n),
                forall|n: Seq<char>| mis0.contains(n) ==> #[trigger] lines_view(mis@).contains(n),
                forall|n: Seq<char>| work0.contains(n) ==> #[trigger] lines_view(work@).contains(n),
                work@.len() - wlen0 == vis@.len() - vlen0,
                vis@.len() >= vlen0,
                wlen0 == ws.len(),
                forall|q: int| 0 <= q < wlen0 ==> #[trigger] work@[q] == ws[q],
                forall|k: int, n: Seq<char>| 0 <= k < i && #[trigger] names_of(lv[k]).contains(n) ==> lines_view(vis@).contains(n) || lines_view(mis@).contains(n),
                forall|q: int| 0 <= q < j ==> lines_view(vis@).contains(#[trigger] lines_view(names@)[q]) || lines_view(mis@).contains(lines_view(names@)[q]),
            decreases names.len() - j,
        {
            let n = &names[j];
            let ghost nv = n@;
            assert(lines_view(names@)[j as int] == nv);
            let in_vis = on_path(vis, n);
            let in_mis = on_path(mis, n);
            if !in_vis && !in_mis {
                proof {
                    assert(names_of(lv[i as int]).contains(nv));
                    assert(mentions(lv, nv));
                    lemma_reach_from(*reg, ls, lv, from, nv);
                }
                let ghost v1 = lines_view(vis@);
                let ghost m1 = lines_view(mis@);
                let ghost w1 = lines_view(work@);
                if reg.get(n).is_some() {
                    vis.push(copy_chars(n));
                    work.push(copy_chars(n));
                    proof {
                        assert(lines_view(vis@) =~= v1.push(nv));
                        assert(lines_view(work@) =~= w1.push(nv));
                        lemma_push_contains(v1, nv);
                        lemma_push_contains(w1, nv);
                        lemma_walk_add_vis(*reg, ls, v1, m1, w1, nv);
                    }
                } else {
                    mis.push(copy_chars(n));
                    proof {
                        assert(lines_view(mis@) =~= m1.push(nv));
                        lemma_push_contains(m1, nv);
                        lemma_walk_add_mis(*reg, ls, v1, m1, w1, nv);
                    }
                }
            }
            j = j + 1;
        }
        proof {
            assert forall|k: int, n: Seq<char>| 0 <= k < i + 1 && #[trigger] names_of(lv[k]).contains(n) implies lines_view(vis@).contains(n) || lines_view(mis@).contains(n) by {
                if k == i {
                    let q = choose|q: int| 0 <= q < lines_view(names@).len() && lines_view(names@)[q] == n;
                }
            }
        }
        i = i + 1;
    }
    proof {
        assert forall|n: Seq<char>| #[trigger] mentions(lv, n) implies lines_view(vis@).contains(n) || lines_view(mis@).contains(n) by {
            let k = choose|k: int| 0 <= k < lv.len() && #[trigger] names_of(lv[k]).contains(n);
            assert(0 <= k < i);
        }
        assert(lines_ok(lv)) by {
            assert forall|k: int| 0 <= k < lv.len() implies (#[trigger] parse_line(lv[k])) is Some by {
                assert(k < i);
            }
        }
    }
    Ok(())
}

proof fn lemma_push_contains(s: Seq<Seq<char>>, x: Seq<char>)
    ensures
        forall|n: Seq<char>| #[trigger] s.push(x).contains(n) <==> s.contains(n) || n == x,
{
    assert forall|n: Seq<char>| #[trigger] s.push(x).contains(n) <==> s.contains(n) || n == x by {
        if s.contains(n) {
            let i = choose|i: int| 0 <= i < s.len() && s[i] == n;
            assert(s.push(x)[i] == n);
        }
        if n == x {
            assert(s.push(x)[s.len() as int] == n);
        }
        if s.push(x).contains(n) {
            let i = choose|i: int| 0 <= i < s.push(x).len() && s.push(x)[i] == n;
            if i < s.len() {
                assert(s[i] == n);
            }
        }
    }
}

proof fn lemma_walk_add_vis(reg: Registry, ls: Seq<Seq<char>>, vis: Seq<Seq<char>>, mis: Seq<Seq<char>>, work: Seq<Seq<char>>, n: Seq<char>)
    requires
        walk_inv(reg, ls, vis, mis, work),
        !vis.contains(n),
        !mis.contains(n),
        reg.raw_get(n) is Some,
        reachable(reg, ls, n),
    ensures
        walk_inv(reg, ls, vis.push(n), mis, work.push(n)),
{
    lemma_push_contains(vis, n);
    lemma_push_contains(work, n);
    assert(!work.contains(n)) by {
        if work.contains(n) {
            let i = choose|i: int| 0 <= i < work.len() && work[i] == n;
            assert(vis.contains(work[i]));
        }
    }
    let v2 = vis.push(n);
    let w2 = work.push(n);
    assert forall|i: int| 0 <= i < v2.len() implies reg.raw_get(#[trigger] v2[i]) is Some && reachable(reg, ls, v2[i]) by {
        if i < vis.len() {
            assert(v2[i] == vis[i]);
        }
    }
    assert forall|i: int| 0 <= i < w2.len() implies v2.contains(#[trigger] w2[i]) by {
        if i < work.len() {
            assert(w2[i] == work[i]);
            assert(vis.contains(work[i]));
        }
    }
    assert forall|v: Seq<char>| #[trigger] v2.contains(v) && !w2.contains(v) implies done(reg, v, v2, mis) by {
        assert(vis.contains(v) && !work.contains(v));
        assert(done(reg, v, vis, mis));
    }
    assert(v2.no_duplicates()) by {
        assert forall|i: int, j: int| 0 <= i < v2.len() && 0 <= j < v2.len() && i != j implies v2[i] != v2[j] by {
            if i < vis.len() && j < vis.len() {
            } else if i < vis.len() {
                assert(vis.contains(v2[i]));
            } else if j < vis.len() {
                assert(vis.contains(v2[j]));
            }
        }
    }
    assert(w2.no_duplicates()) by {
        assert forall|i: int, j: int| 0 <= i < w2.len() && 0 <= j < w2.len() && i != j implies w2[i] != w2[j] by {
            if i < work.len() && j < work.len() {
            } else if i < work.len() {
                assert(work.contains(w2[i]));
            } else if j < work.len() {
                assert(work.contains(w2[j]));
            }
        }
    }
}

proof fn lemma_walk_add_mis(reg: Registry, ls: Seq<Seq<char>>, vis: Seq<Seq<char>>, mis: Seq<Seq<char>>, work: Seq<Seq<char>>, n: Seq<char>)
    requires
        walk_inv(reg, ls, vis, mis, work),
        !vis.contains(n),
        !mis.contains(n),
        reg.raw_get(n) is None,
        reachable(reg, ls, n),
    ensures
        walk_inv(reg, ls, vis, mis.push(n), work),
{
    lemma_push_contains(mis, n);
    let m2 = mis.push(n);
    assert forall|i: int| 0 <= i < m2.len() implies reg.raw_get(#[trigger] m2[i]) is None && reachable(reg, ls, m2[i]) by {
        if i < mis.len() {
            assert(m2[i] == mis[i]);
        }
    }
    assert forall|v: Seq<char>| #[trigger] vis.contains(v) && !work.contains(v) implies done(reg, v, vis, m2) by {
        assert(done(reg, v, vis, mis));
    }
    assert(m2.no_duplicates()) by {
        assert forall|i: int, j: int| 0 <= i < m2.len() && 0 <= j < m2.len() && i != j implies m2[i] != m2[j] by {
            if i < mis.len() && j < mis.len() {
            } else if i < mis.len() {
                assert(mis.contains(m2[i]));
            } else if j < mis.len() {
                assert(mis.contains(m2[j]));
            }
        }
    }
}

/// Walks the reference graph from the lines `ls`: `Ok((vis, mis))` holds
/// the registered and the unregistered names that `ls` reaches, each once;
/// `Err(MalformedReference)` when a line read on the way is malformed.
pub fn explore(reg: &Registry, ls: &Vec<Vec<char>>) -> (r: Result<(Vec<Vec<char>>, Vec<Vec<char>>), TileError>)
    ensures
        match r {
            Ok((vis, mis)) => {
                &&& closure_ok(*reg, lines_view(ls@))
                &&& lines_view(vis@).no_duplicates()
                &&& lines_view(mis@).no_duplicates()
                &&& forall|n: Seq<char>| #[trigger] lines_view(vis@).contains(n) <==> reachable(*reg, lines_view(ls@), n) && reg.raw_get(n) is Some
                &&& forall|n: Seq<char>| #[trigger] lines_view(mis@).contains(n) <==> reachable(*reg, lines_view(ls@), n) && reg.raw_get(n) is None
            },
            Err(e) => e == TileError::MalformedReference && !closure_ok(*reg, lines_view(ls@)),
        },
{
    let ghost l0 = lines_view(ls@);
    let mut vis: Vec<Vec<char>> = Vec::new();
    let mut mis: Vec<Vec<char>> = Vec::new();
    let mut work: Vec<Vec<char>> = Vec::new();
    proof {
        assert(lines_view(vis@) =~= seq![]);
        assert(lines_view(mis@) =~= seq![]);
        assert(lines_view(work@) =~= seq![]);
    }
    match note_refs(reg, ls, &mut vis, &mut mis, &mut work, Ghost(l0), Ghost(None)) {
        Err(e) => {
            return Err(e);
        },
        Ok(()) => {},
    }
    while work.len() > 0
        invariant
            l0 == lines_view(ls@),
            walk_inv(*reg, l0, lines_view(vis@), lines_view(mis@), lines_view(work@)),
            lines_ok(l0),
            forall|n: Seq<char>| #[trigger] mentions(l0, n) ==> lines_view(vis@).contains(n) || lines_view(mis@).contains(n),
        decreases reg.size() - vis@.len(), work@.len(),
    {
        proof {
            reg.lemma_size_bound(lines_view(vis@));
        }
        let k: usize = 0;
        let v = copy_chars(&work[k]);
        let ghost vv = v@;
        let ghost w0 = lines_view(work@);
        let ghost wraw = work@;
        proof {
            assert(w0[k as int] == vv);
            assert(lines_view(vis@).contains(w0[k as int]));
            let i = choose|i: int| 0 <= i < lines_view(vis@).len() && lines_view(vis@)[i] == vv;
            assert(reg.raw_get(lines_view(vis@)[i]) is Some && reachable(*reg, l0, lines_view(vis@)[i]));
        }
        let t = match reg.get(&v) {
            Some(t) => t,
            None => {
                return Err(TileError::MalformedReference);
            },
        };
        let lines = lines_of_strings(&t.lns);
        let ghost vlen = vis@.len();
        match note_refs(reg, &lines, &mut vis, &mut mis, &mut work, Ghost(l0), Ghost(Some(vv))) {
            Err(e) => {
                proof {
                    assert(reachable(*reg, l0, vv));
                    assert(!closure_ok(*reg, l0));
                }
                return Err(e);
            },
            Ok(()) => {},
        }
        proof {
            assert(work@[k as int] == wraw[k as int]);
            assert(lines_view(work@)[k as int] == vv);
            assert(lines_view(lines@) == tile_lines(*t));
            assert(done(*reg, vv, lines_view(vis@), lines_view(mis@)));
        }
        let ghost w2 = lines_view(work@);
        work.remove(k);
        proof {
            reg.lemma_size_bound(lines_view(vis@));
            let w3 = lines_view(work@);
            assert(w3 =~= w2.remove(k as int));
            lemma_remove_contains(w2, k as int);
            lemma_walk_finish(*reg, l0, lines_view(vis@), lines_view(mis@), w2, k as int);
        }
    }
    proof {
        assert(lines_view(work@) =~= seq![]);
        let vs = lines_view(vis@);
        let ms = lines_view(mis@);
        assert forall|n: Seq<char>| #[trigger] reachable(*reg, l0, n) implies (reg.raw_get(n) is Some ==> vs.contains(n)) && (reg.raw_get(n) is None ==> ms.contains(n)) by {
            let c = choose|c: Seq<Seq<char>>| #[trigger] is_chain(*reg, l0, c) && c.last() == n;
            lemma_chain_covered(*reg, l0, vs, ms, c, c.len() - 1);
            lemma_sides(*reg, l0, vs, ms, n);
        }
        assert forall|n: Seq<char>| #[trigger] vs.contains(n) <==> reachable(*reg, l0, n) && reg.raw_get(n) is Some by {
            if vs.contains(n) {
                let i = choose|i: int| 0 <= i < vs.len() && vs[i] == n;
                assert(reg.raw_get(vs[i]) is Some && reachable(*reg, l0, vs[i]));
            }
        }
        assert forall|n: Seq<char>| #[trigger] ms.contains(n) <==> reachable(*reg, l0, n) && reg.raw_get(n) is None by {
            if ms.contains(n) {
                let i = choose|i: int| 0 <= i < ms.len() && ms[i] == n;
                assert(reg.raw_get(ms[i]) is None && reachable(*reg, l0, ms[i]));
            }
        }
        assert forall|n: Seq<char>| #[trigger] reachable(*reg, l0, n) implies (reg.raw_get(n) matches Some(t) ==> lines_ok(tile_lines(t))) by {
            if reg.raw_get(n) is Some {
                assert(vs.contains(n));
                assert(!lines_view(work@).contains(n));
                assert(done(*reg, n, vs, ms));
            }
        }
    }
    Ok((vis, mis))
}

/// A name met as registered is in `vis`, as unregistered in `mis`.
proof fn lemma_sides(reg: Registry, ls: Seq<Seq<char>>, vis: Seq<Seq<char>>, mis: Seq<Seq<char>>, n: Seq<char>)
    requires
        walk_inv(reg, ls, vis, mis, seq![]),
        vis.contains(n) || mis.contains(n),
    ensures
        reg.raw_get(n) is Some ==> vis.contains(n),
        reg.raw_get(n) is None ==> mis.contains(n),
{
    if vis.contains(n) {
        let i = choose|i: int| 0 <= i < vis.len() && vis[i] == n;
        assert(reg.raw_get(vis[i]) is Some);
    } else {
        let i = choose|i: int| 0 <= i < mis.len() && mis[i] == n;
        assert(reg.raw_get(mis[i]) is None);
    }
}

/// With no work left, every name on a chain of references has been met.
proof fn lemma_chain_covered(reg: Registry, ls: Seq<Seq<char>>, vis: Seq<Seq<char>>, mis: Seq<Seq<char>>, c: Seq<Seq<char>>, k: int)
    requires
        walk_inv(reg, ls, vis, mis, seq![]),
        forall|n: Seq<char>| #[trigger] mentions(ls, n) ==> vis.contains(n) || mis.contains(n),
        is_chain(reg, ls, c),
        0 <= k < c.len(),
    ensures
        vis.contains(c[k]) || mis.contains(c[k]),
    decreases k,
{
    if k > 0 {
        lemma_chain_covered(reg, ls, vis, mis, c, k - 1);
        let j = k - 1;
        assert(step(reg, c[j], c[j + 1]));
        assert(j + 1 == k);
        lemma_sides(reg, ls, vis, mis, c[k - 1]);
        let e: Seq<Seq<char>> = seq![];
        assert(!e.contains(c[k - 1]));
        assert(done(reg, c[k - 1], vis, mis));
    }
}

proof fn lemma_remove_contains(w: Seq<Seq<char>>, k: int)
    requires
        0 <= k < w.len(),
        w.no_duplicates(),
    ensures
        w.remove(k).no_duplicates(),
        forall|n: Seq<char>| #[trigger] w.remove(k).contains(n) <==> w.contains(n) && n != w[k],
{
    let r = w.remove(k);
    assert forall|i: int| 0 <= i < r.len() implies (#[trigger] r[i]) == (if i < k { w[i] } else { w[i + 1] }) by {}
    assert forall|n: Seq<char>| #[trigger] r.contains(n) <==> w.contains(n) && n != w[k] by {
        if r.contains(n) {
            let i = choose|i: int| 0 <= i < r.len() && r[i] == n;
            if i < k {
                assert(w[i] == n);
            } else {
                assert(w[i + 1] == n);
            }
        }
        if w.contains(n) && n != w[k] {
            let i = choose|i: int| 0 <= i < w.len() && w[i] == n;
            if i < k {
                assert(r[i] == n);
            } else {
                assert(i != k);
                assert(r[i - 1] == n);
            }
        }
    }
    assert forall|i: int, j: int| 0 <= i < r.len() && 0 <= j < r.len() && i != j implies r[i] != r[j] by {
        let a = if i < k { i } else { i + 1 };
        let b = if j < k { j } else { j + 1 };
        assert(r[i] == w[a] && r[j] == w[b] && a != b);
    }
}

/// Once the lines of `w[k]` have been read, dropping it from the work keeps the walk state.
proof fn lemma_walk_finish(reg: Registry, ls: Seq<Seq<char>>, vis: Seq<Seq<char>>, mis: Seq<Seq<char>>, w: Seq<Seq<char>>, k: int)
    requires
        walk_inv(reg, ls, vis, mis, w),
        0 <= k < w.len(),
        done(reg, w[k], vis, mis),
        forall|n: Seq<char>| #[trigger] w.remove(k).contains(n) <==> w.contains(n) && n != w[k],
        w.remove(k).no_duplicates(),
    ensures
        walk_inv(reg, ls, vis, mis, w.remove(k)),
{
    let r = w.remove(k);
    assert forall|i: int| 0 <= i < r.len() implies vis.contains(#[trigger] r[i]) by {
        assert(r.contains(r[i]));
        let j = choose|j: int| 0 <= j < w.len() && w[j] == r[i];
        assert(vis.contains(w[j]));
    }
}

/// The reference names of the lines, line after line, in order (none
/// from a malformed line).
pub open spec fn all_names(ls: Seq<Seq<char>>) -> Seq<Seq<char>>
    decreases ls.len(),
{
    if ls.len() == 0 {
        seq![]
    } else {
        all_names(ls.drop_last()) + names_of(ls.last())
    }
}

/// Depth-first discovery of registered tiles: `todo` holds the names still
/// to visit, first one next; visiting a registered name not met before
/// records it in `seen` and puts the names its lines refer to ahead of the
/// rest. The result is `seen` with every tile met, in order of discovery.
pub open spec fn dfs_order(reg: Registry, todo: Seq<Seq<char>>, seen: Seq<Seq<char>>) -> Seq<Seq<char>>
    decreases reg.size() - seen.len(), todo.len(),
{
    if todo.len() == 0 {
        seen
    } else {
        let n = todo[0];
        if seen.contains(n) || reg.raw_get(n) is None {
            dfs_order(reg, todo.drop_first(), seen)
        } else if seen.len() >= reg.size() {
            seen
        } else {
            dfs_order(
                reg,
                all_names(tile_lines(reg.raw_get(n)->0)) + todo.drop_first(),
                seen.push(n),
            )
        }
    }
}

/// The names of `s` whose registered tile has no lines, in order.
pub open spec fn blank_only(reg: Registry, s: Seq<Seq<char>>) -> Seq<Seq<char>>
    decreases s.len(),
{
    if s.len() == 0 {
        seq![]
    } else if reg.raw_get(s.last()) matches Some(t) && t.lns@.len() == 0 {
        blank_only(reg, s.drop_last()).push(s.last())
    } else {
        blank_only(reg, s.drop_last())
    }
}

/// Discovery never records a name twice.
pub proof fn lemma_dfs_order_distinct(reg: Registry, todo: Seq<Seq<char>>, seen: Seq<Seq<char>>)
    requires
        seen.no_duplicates(),
    ensures
        dfs_order(reg, todo, seen).no_duplicates(),
    decreases reg.size() - seen.len(), todo.len(),
{
    if todo.len() > 0 {
        let n = todo[0];
        if seen.contains(n) || reg.raw_get(n) is None {
            lemma_dfs_order_distinct(reg, todo.drop_first(), seen);
        } else if seen.len() < reg.size() {
            let s2 = seen.push(n);
            assert(s2.no_duplicates()) by {
                assert forall|i: int, j: int| 0 <= i < s2.len() && 0 <= j < s2.len() && i != j implies s2[i] != s2[j] by {
                    if i < seen.len() && j < seen.len() {
                        assert(s2[i] == seen[i] && s2[j] == seen[j]);
                    } else if i < seen.len() {
                        assert(s2[i] == seen[i]);
                        assert(seen.contains(s2[i]));
                    } else if j < seen.len() {
                        assert(s2[j] == seen[j]);
                        assert(seen.contains(s2[j]));
                    }
                }
            }
            lemma_dfs_order_distinct(reg, all_names(tile_lines(reg.raw_get(n)->0)) + todo.drop_first(), s2);
        }
    }
}

/// Keeping the blank names keeps them distinct and takes nothing new.
pub proof fn lemma_blank_only(reg: Registry, s: Seq<Seq<char>>)
    requires
        s.no_duplicates(),
    ensures
        blank_only(reg, s).no_duplicates(),
        forall|x: Seq<char>| #[trigger] blank_only(reg, s).contains(x) ==> s.contains(x),
    decreases s.len(),
{
    if s.len() > 0 {
        let p = s.drop_last();
        assert(p.no_duplicates()) by {
            assert forall|i: int, j: int| 0 <= i < p.len() && 0 <= j < p.len() && i != j implies p[i] != p[j] by {
                assert(p[i] == s[i] && p[j] == s[j]);
            }
        }
        lemma_blank_only(reg, p);
        let b = blank_only(reg, p);
        assert forall|x: Seq<char>| #[trigger] b.contains(x) implies s.contains(x) by {
            let k = choose|k: int| 0 <= k < p.len() && p[k] == x;
            assert(s[k] == x);
        }
        assert(!b.contains(s.last())) by {
            if b.contains(s.last()) {
                let k = choose|k: int| 0 <= k < p.len() && p[k] == s.last();
                assert(s[k] == s[s.len() - 1]);
            }
        }
        if reg.raw_get(s.last()) matches Some(t) && t.lns@.len() == 0 {
            let b2 = b.push(s.last());
            assert(b2.no_duplicates()) by {
                assert forall|i: int, j: int| 0 <= i < b2.len() && 0 <= j < b2.len() && i != j implies b2[i] != b2[j] by {
                    if i < b.len() && j < b.len() {
                        assert(b2[i] == b[i] && b2[j] == b[j]);
                    } else if i < b.len() {
                        assert(b2[i] == b[i]);
                        assert(b.contains(b2[i]));
                    } else if j < b.len() {
                        assert(b2[j] == b[j]);
                        assert(b.contains(b2[j]));
                    }
                }
            }
            assert forall|x: Seq<char>| #[trigger] b2.contains(x) implies s.contains(x) by {
                let k = choose|k: int| 0 <= k < b2.len() && b2[k] == x;
                if k < b.len() {
                    assert(b2[k] == b[k]);
                    assert(b.contains(x));
                } else {
                    assert(s[s.len() - 1] == x);
                }
            }
        }
    }
}

/// The reference names of the lines, in order (see `all_names`).
pub fn names_in_lines(ls: &Vec<Vec<char>>) -> (r: Vec<Vec<char>>)
    ensures
        lines_view(r@) == all_names(lines_view(ls@)),
{
    let ghost lv = lines_view(ls@);
    let mut out: Vec<Vec<char>> = Vec::new();
    let mut i: usize = 0;
    while i < ls.len()
        invariant
            lv == lines_view(ls@),
            i <= ls.len(),
            lines_view(out@) == all_names(lv.subrange(0, i as int)),
        decreases ls.len() - i,
    {
        proof {
            let p = lv.subrange(0, i + 1);
            assert(p.drop_last() =~= lv.subrange(0, i as int));
            assert(p.last() == ls@[i as int]@);
        }
        match scan_line(&ls[i]) {
            Ok((_texts, names)) => {
                let ghost before = lines_view(out@);
                let n0 = out.len();
                let mut j: usize = 0;
                while j < names.len()
                    invariant
                        j <= names.len(),
                        n0 == before.len(),
                        out.len() == n0 + j,
                        forall|k: int| 0 <= k < n0 ==> (#[trigger] out@[k])@ == before[k],
                        forall|k: int| 0 <= k < j ==> (#[trigger] out@[n0 + k])@ == names@[k]@,
                    decreases names.len() - j,
                {
                    out.push(copy_chars(&names[j]));
                    j = j + 1;
                }
                assert(lines_view(out@) =~= before + lines_view(names@)) by {
                    assert forall|k: int| n0 <= k < out.len() implies (#[trigger] out@[k])@ == names@[k - n0]@ by {
                        assert(out@[n0 + (k - n0)] == out@[k]);
                    }
                }
            },
            Err(_) => {
                assert(lines_view(out@) =~= lines_view(out@) + seq![]);
            },
        }
        i = i + 1;
    }
    assert(lv.subrange(0, i as int) =~= lv);
    out
}

fn copy_lines_of(a: &Vec<Vec<char>>) -> (r: Vec<Vec<char>>)
    ensures
        lines_view(r@) == lines_view(a@),
{
    let mut r: Vec<Vec<char>> = Vec::new();
    let mut i: usize = 0;
    while i < a.len()
        invariant
            i <= a.len(),
            r.len() == i,
            forall|k: int| 0 <= k < i ==> (#[trigger] r@[k])@ == a@[k]@,
        decreases a.len() - i,
    {
        r.push(copy_chars(&a[i]));
        i = i + 1;
    }
    assert(lines_view(r@) =~= lines_view(a@));
    r
}

/// Registered tiles met from the names `start`, depth first, in order of
/// discovery (see `dfs_order`).
pub fn discover(reg: &Registry, start: &Vec<Vec<char>>) -> (r: Vec<Vec<char>>)
    ensures
        lines_view(r@) == dfs_order(*reg, lines_view(start@), seq![]),
{
    let ghost t0 = lines_view(start@);
    let mut todo = copy_lines_of(&start);
    let mut seen: Vec<Vec<char>> = Vec::new();
    assert(lines_view(seen@) =~= seq![]);
    while todo.len() > 0
        invariant
            t0 == lines_view(start@),
            dfs_order(*reg, t0, seq![]) == dfs_order(*reg, lines_view(todo@), lines_view(seen@)),
        decreases reg.size() - seen@.len(), todo@.len(),
    {
        let ghost tv = lines_view(todo@);
        let ghost sv = lines_view(seen@);
        let n = todo.remove(0);
        assert(lines_view(todo@) =~= tv.drop_first());
        assert(n@ == tv[0]);
        let known = on_path(&seen, &n);
        match reg.get(&n) {
            None => {},
            Some(t) => {
                if !known {
                    if seen.len() >= reg.len() {
                        return seen;
                    }
                    let ls = lines_of_strings(&t.lns);
                    let mut next = names_in_lines(&ls);
                    let ghost kv = lines_view(next@);
                    let ghost rv = lines_view(todo@);
                    let n0 = next.len();
                    let mut k: usize = 0;
                    while k < todo.len()
                        invariant
                            n0 == kv.len(),
                            rv == lines_view(todo@),
                            k <= todo.len(),
                            next.len() == n0 + k,
                            forall|q: int| 0 <= q < n0 ==> (#[trigger] next@[q])@ == kv[q],
                            forall|q: int| 0 <= q < k ==> (#[trigger] next@[n0 + q])@ == todo@[q]@,
                        decreases todo.len() - k,
                    {
                        next.push(copy_chars(&todo[k]));
                        k = k + 1;
                    }
                    assert(lines_view(next@) =~= kv + rv) by {
                        assert forall|q: int| n0 <= q < next.len() implies (#[trigger] next@[q])@ == todo@[q - n0]@ by {
                            assert(next@[n0 + (q - n0)] == next@[q]);
                        }
                    }
                    let ghost s0 = lines_view(seen@);
                    seen.push(n);
                    assert(lines_view(seen@) =~= s0.push(tv[0]));
                    todo = next;
                }
            },
        }
    }
    seen
}

} // verus!
