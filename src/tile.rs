//! The tile: a rectangular block of text lines with a trimming mode.

use vstd::prelude::*;
use crate::{JoinItem, RTile, TileError};
use crate::align::{append_lines, pad_concat, width};
use crate::closure::{
    all_names, blank_only, closure_ok, discover, dfs_order, explore, lemma_blank_only,
    lemma_dfs_order_distinct, lines_ok, names_in_lines, names_of, reachable,
};
use crate::registry::{copy_chars, Registry};
use crate::resolve::{render, render_stored, render_stored_text, render_text};
use crate::scan::{next_reference, find_open, scan_line, parse_line};
use crate::text::{
    canon_if, canonicalize, chars_of, join_lines, join_text, lead_ws, lines_of_strings, lines_view,
    skip, split_lines, split_text, string_of, strings_of_lines, strings_view, strip_end,
    find_char, leading_whitespace, skip_chars, strip_line_end,
};

verus! {

/// `t` is the blank placeholder registered for `n`: named `n`, no lines,
/// trimming enabled.
pub open spec fn is_blank_named(t: RTile, n: Seq<char>) -> bool {
    &&& t.lns@.len() == 0
    &&& t.do_trimming
    &&& t.name matches Some(s) && s@ == n
}

/// `r1` is `r0` with a blank placeholder, and an empty resolved text, for
/// every unregistered name that the lines `ls` reach.
pub open spec fn materialized(r0: Registry, r1: Registry, ls: Seq<Seq<char>>) -> bool {
    &&& forall|n: Seq<char>| r0.raw_get(n) is Some ==> #[trigger] r1.raw_get(n) == r0.raw_get(n)
    &&& forall|n: Seq<char>| r0.raw_get(n) is None ==> ((#[trigger] r1.raw_get(n)) is Some <==> reachable(r0, ls, n))
    &&& forall|n: Seq<char>| r0.raw_get(n) is None && reachable(r0, ls, n) ==> is_blank_named((#[trigger] r1.raw_get(n))->0, n)
        && r1.resolved_get(n) == Some(Seq::<char>::empty())
    &&& forall|n: Seq<char>| !(r0.raw_get(n) is None && reachable(r0, ls, n)) ==> #[trigger] r1.resolved_get(n) == r0.resolved_get(n)
}

/// `r1` holds the same tiles and resolved texts as `r0`.
pub open spec fn unchanged(r0: Registry, r1: Registry) -> bool {
    &&& forall|n: Seq<char>| #[trigger] r1.raw_get(n) == r0.raw_get(n)
    &&& forall|n: Seq<char>| #[trigger] r1.resolved_get(n) == r0.resolved_get(n)
}

/// Registers a blank placeholder for every unregistered name that the
/// lines `ls` reach through registered tiles; fails, changing nothing,
/// when a line read on the way holds an unclosed `@{`.
pub fn materialize(reg: &mut Registry, ls: &Vec<Vec<char>>) -> (r: Result<(), TileError>)
    ensures
        match r {
            Ok(()) => closure_ok(*old(reg), lines_view(ls@)) && materialized(*old(reg), *final(reg), lines_view(ls@)),
            Err(e) => e == TileError::MalformedReference && !closure_ok(*old(reg), lines_view(ls@)) && unchanged(*old(reg), *final(reg)),
        },
{
    let ghost r0 = *reg;
    let ghost l0 = lines_view(ls@);
    let (_vis, mis) = match explore(reg, ls) {
        Err(e) => {
            return Err(e);
        },
        Ok(p) => p,
    };
    let ghost mv = lines_view(mis@);
    let mut j: usize = 0;
    while j < mis.len()
        invariant
            mv == lines_view(mis@),
            mv.no_duplicates(),
            forall|n: Seq<char>| #[trigger] mv.contains(n) <==> reachable(r0, l0, n) && r0.raw_get(n) is None,
            j <= mis.len(),
            forall|n: Seq<char>| !mv.subrange(0, j as int).contains(n) ==> #[trigger] reg.raw_get(n) == r0.raw_get(n),
            forall|n: Seq<char>| !mv.subrange(0, j as int).contains(n) ==> #[trigger] reg.resolved_get(n) == r0.resolved_get(n),
            forall|n: Seq<char>| mv.subrange(0, j as int).contains(n) ==> (#[trigger] reg.raw_get(n)) is Some && is_blank_named(reg.raw_get(n)->0, n)
                && reg.resolved_get(n) == Some(Seq::<char>::empty()),
        decreases mis.len() - j,
    {
        let m = &mis[j];
        let tile = RTile { name: Some(string_of(m)), lns: Vec::new(), do_trimming: true };
        let ghost mm = m@;
        reg.set(copy_chars(m), tile);
        reg.set_resolved(copy_chars(m), Vec::new());
        proof {
            let s0 = mv.subrange(0, j as int);
            let s1 = mv.subrange(0, j + 1);
            assert(s1 =~= s0.push(mm));
            assert forall|n: Seq<char>| #[trigger] s1.contains(n) <==> s0.contains(n) || n == mm by {
                if s0.contains(n) {
                    let i = choose|i: int| 0 <= i < s0.len() && s0[i] == n;
                    assert(s1[i] == n);
                }
                if n == mm {
                    assert(s1[j as int] == n);
                }
                if s1.contains(n) {
                    let i = choose|i: int| 0 <= i < s1.len() && s1[i] == n;
                    if i < j {
                        assert(s0[i] == n);
                    }
                }
            }
        }
        j = j + 1;
    }
    proof {
        assert(mv.subrange(0, j as int) =~= mv);
    }
    Ok(())
}

/// A tile of the given lines, canonicalized when `trim`, after registering
/// placeholders for what the lines reach.
fn build(reg: &mut Registry, ls: Vec<Vec<char>>, trim: bool) -> (r: Result<RTile, TileError>)
    ensures
        match r {
            Ok(t) => t.name is None && t.do_trimming == trim && t.lines() == canon_if(lines_view(ls@), trim)
                && closure_ok(*old(reg), lines_view(ls@)) && materialized(*old(reg), *final(reg), lines_view(ls@)),
            Err(e) => e == TileError::MalformedReference && !closure_ok(*old(reg), lines_view(ls@)) && unchanged(*old(reg), *final(reg)),
        },
{
    match materialize(reg, &ls) {
        Err(e) => {
            return Err(e);
        },
        Ok(()) => {},
    }
    let fin = if trim {
        canonicalize(&ls)
    } else {
        ls
    };
    Ok(RTile { name: None, lns: strings_of_lines(&fin), do_trimming: trim })
}

/// The views of a list of string slices.
pub open spec fn strs_view(v: Seq<&str>) -> Seq<Seq<char>> {
    v.map_values(|s: &str| s@)
}

fn lines_of_strs(v: &Vec<&str>) -> (r: Vec<Vec<char>>)
    ensures
        lines_view(r@) == strs_view(v@),
{
    let mut r: Vec<Vec<char>> = Vec::new();
    let mut i: usize = 0;
    while i < v.len()
        invariant
            i <= v.len(),
            r.len() == i,
            forall|k: int| 0 <= k < i ==> (#[trigger] r@[k])@ == v@[k]@,
        decreases v.len() - i,
    {
        r.push(chars_of(v[i]));
        i = i + 1;
    }
    assert(lines_view(r@) =~= strs_view(v@));
    r
}

/// The lines of the tiles of `items` set side by side in turn, `sep`
/// between each two.
pub open spec fn joined(items: Seq<Seq<Seq<char>>>, sep: Seq<Seq<char>>) -> Seq<Seq<char>>
    decreases items.len(),
{
    if items.len() == 0 {
        seq![]
    } else if items.len() == 1 {
        pad_concat(seq![], items[0])
    } else {
        pad_concat(pad_concat(joined(items.drop_last(), sep), sep), items.last())
    }
}

/// A tile's lines followed by `after`: set to their right when `inline`,
/// else below them.
pub open spec fn vjoin_block(item: Seq<Seq<char>>, after: Seq<Seq<char>>, inline: bool) -> Seq<Seq<char>> {
    if inline {
        pad_concat(item, after)
    } else {
        item + after
    }
}

/// The first `k` tiles of `items` stacked, each followed by `sep`, the
/// last of all `items` by `last` (see `vjoin_block`).
pub open spec fn vjoined(
    items: Seq<Seq<Seq<char>>>,
    sep: Seq<Seq<char>>,
    last: Seq<Seq<char>>,
    inline: bool,
    k: int,
) -> Seq<Seq<char>>
    decreases k,
{
    if k <= 0 || k > items.len() {
        seq![]
    } else {
        vjoined(items, sep, last, inline, k - 1) + vjoin_block(
            items[k - 1],
            if k == items.len() {
                last
            } else {
                sep
            },
            inline,
        )
    }
}

/// The text an item stands for: a text as it is, a tile rendered.
pub open spec fn item_text(reg: Registry, item: JoinItem) -> Result<Seq<char>, TileError> {
    match item {
        JoinItem::Text(s) => Ok(s@),
        JoinItem::Block(t) => render(reg, t.lines(), t.do_trimming),
    }
}

/// The texts of the items, or the first error.
pub open spec fn rendered_all(reg: Registry, tiles: Seq<JoinItem>) -> Result<Seq<Seq<char>>, TileError>
    decreases tiles.len(),
{
    if tiles.len() == 0 {
        Ok(seq![])
    } else {
        match rendered_all(reg, tiles.drop_last()) {
            Err(e) => Err(e),
            Ok(texts) => match item_text(reg, tiles.last()) {
                Err(e) => Err(e),
                Ok(t) => Ok(texts.push(t)),
            },
        }
    }
}

/// The canonical lines of each rendered text.
pub open spec fn item_blocks(texts: Seq<Seq<char>>) -> Seq<Seq<Seq<char>>> {
    texts.map_values(|t: Seq<char>| crate::text::canonical(split_lines(t)))
}

/// A line without whitespace at either end.
pub open spec fn strip_both(l: Seq<char>) -> Seq<char> {
    skip(strip_end(l), lead_ws(strip_end(l)))
}

/// The lines stripped at both ends and written one after the other.
pub open spec fn flat(ls: Seq<Seq<char>>) -> Seq<char>
    decreases ls.len(),
{
    if ls.len() == 0 {
        seq![]
    } else {
        flat(ls.drop_last()) + strip_both(ls.last())
    }
}

/// Whether some line holds a `@{`: `Ok(true)` when the first line that
/// does closes it, an error when it does not.
pub open spec fn first_ref_check(ls: Seq<Seq<char>>, i: int) -> Result<bool, TileError>
    decreases ls.len() - i,
{
    if i < 0 || i >= ls.len() {
        Ok(false)
    } else if find_open(ls[i], 0) >= ls[i].len() {
        first_ref_check(ls, i + 1)
    } else if find_char(ls[i], '}', find_open(ls[i], 0) + 2) >= ls[i].len() {
        Err(TileError::MalformedReference)
    } else {
        Ok(true)
    }
}

impl RTile {
    /// The lines of the tile.
    pub open spec fn lines(&self) -> Seq<Seq<char>> {
        strings_view(self.lns@)
    }

    /// A trimmed tile of the given lines.
    pub fn new_str(reg: &mut Registry, lns: Vec<&str>) -> (r: Result<RTile, TileError>)
        ensures
            match r {
                Ok(t) => t.name is None && t.do_trimming && t.lines() == crate::text::canonical(strs_view(lns@))
                    && materialized(*old(reg), *final(reg), strs_view(lns@)),
                Err(e) => e == TileError::MalformedReference && !closure_ok(*old(reg), strs_view(lns@)) && unchanged(*old(reg), *final(reg)),
            },
    {
        let ls = lines_of_strs(&lns);
        build(reg, ls, true)
    }

    /// A trimmed tile of the given lines.
    pub fn new(reg: &mut Registry, lns: Vec<String>) -> (r: Result<RTile, TileError>)
        ensures
            match r {
                Ok(t) => t.name is None && t.do_trimming && t.lines() == crate::text::canonical(strings_view(lns@))
                    && materialized(*old(reg), *final(reg), strings_view(lns@)),
                Err(e) => e == TileError::MalformedReference && !closure_ok(*old(reg), strings_view(lns@)) && unchanged(*old(reg), *final(reg)),
            },
    {
        let ls = lines_of_strings(&lns);
        build(reg, ls, true)
    }

    /// A trimmed tile of the lines of `val`.
    pub fn construct_from_str(reg: &mut Registry, val: &str) -> (r: Result<RTile, TileError>)
        ensures
            match r {
                Ok(t) => t.name is None && t.do_trimming && t.lines() == crate::text::canonical(split_lines(val@))
                    && materialized(*old(reg), *final(reg), split_lines(val@)),
                Err(e) => e == TileError::MalformedReference && !closure_ok(*old(reg), split_lines(val@)) && unchanged(*old(reg), *final(reg)),
            },
    {
        let ls = split_text(&chars_of(val));
        build(reg, ls, true)
    }

    /// An untrimmed tile of the given lines, kept as they are.
    pub fn new_without_trimming_str(reg: &mut Registry, lns: Vec<&str>) -> (r: Result<RTile, TileError>)
        ensures
            match r {
                Ok(t) => t.name is None && !t.do_trimming && t.lines() == strs_view(lns@)
                    && materialized(*old(reg), *final(reg), strs_view(lns@)),
                Err(e) => e == TileError::MalformedReference && !closure_ok(*old(reg), strs_view(lns@)) && unchanged(*old(reg), *final(reg)),
            },
    {
        let ls = lines_of_strs(&lns);
        build(reg, ls, false)
    }

    /// An untrimmed tile of the given lines, kept as they are.
    pub fn new_without_trimming(reg: &mut Registry, lns: Vec<String>) -> (r: Result<RTile, TileError>)
        ensures
            match r {
                Ok(t) => t.name is None && !t.do_trimming && t.lines() == strings_view(lns@)
                    && materialized(*old(reg), *final(reg), strings_view(lns@)),
                Err(e) => e == TileError::MalformedReference && !closure_ok(*old(reg), strings_view(lns@)) && unchanged(*old(reg), *final(reg)),
            },
    {
        let ls = lines_of_strings(&lns);
        build(reg, ls, false)
    }

    /// An untrimmed tile of the lines of `val`.
    pub fn from_str_without_trimming(reg: &mut Registry, val: &str) -> (r: Result<RTile, TileError>)
        ensures
            match r {
                Ok(t) => t.name is None && !t.do_trimming && t.lines() == split_lines(val@)
                    && materialized(*old(reg), *final(reg), split_lines(val@)),
                Err(e) => e == TileError::MalformedReference && !closure_ok(*old(reg), split_lines(val@)) && unchanged(*old(reg), *final(reg)),
            },
    {
        let ls = split_text(&chars_of(val));
        build(reg, ls, false)
    }

    /// The text of the tile with every reference resolved (see `render`).
    pub fn to_string(&self, reg: &Registry) -> (r: Result<String, TileError>)
        ensures
            match r {
                Ok(s) => render(*reg, self.lines(), self.do_trimming) == Ok::<Seq<char>, TileError>(s@),
                Err(e) => render(*reg, self.lines(), self.do_trimming) == Err::<Seq<char>, TileError>(e),
            },
    {
        render_text(reg, &self.lns, self.do_trimming)
    }

    /// The text of the tile with every reference taking its stored resolved
    /// text (see `render_stored`).
    pub fn reevaluate(&self, reg: &Registry) -> (r: Result<String, TileError>)
        ensures
            match r {
                Ok(s) => render_stored(*reg, self.lines(), self.do_trimming) == Ok::<Seq<char>, TileError>(s@),
                Err(e) => render_stored(*reg, self.lines(), self.do_trimming) == Err::<Seq<char>, TileError>(e),
            },
    {
        render_stored_text(reg, &self.lns, self.do_trimming)
    }

    /// The lines, canonicalized in trimming mode, joined, with every
    /// reference left as written.
    pub fn raw(&self) -> (r: String)
        ensures
            r@ == join_lines(canon_if(self.lines(), self.do_trimming)),
    {
        let ls = lines_of_strings(&self.lns);
        let fin = if self.do_trimming {
            canonicalize(&ls)
        } else {
            ls
        };
        string_of(&join_text(&fin))
    }

    /// The lines stripped of whitespace at both ends, written one after the other.
    pub fn flatten(&self) -> (r: String)
        ensures
            r@ == flat(self.lines()),
    {
        let ghost lv = self.lines();
        let mut out: Vec<char> = Vec::new();
        let mut i: usize = 0;
        while i < self.lns.len()
            invariant
                lv == self.lines(),
                i <= self.lns.len(),
                out@ == flat(lv.subrange(0, i as int)),
            decreases self.lns.len() - i,
        {
            let l = chars_of(self.lns[i].as_str());
            let e = strip_line_end(&l);
            let w = leading_whitespace(&e);
            let s = skip_chars(&e, w);
            let ghost before = out@;
            let mut k: usize = 0;
            while k < s.len()
                invariant
                    k <= s.len(),
                    out@ == before + s@.subrange(0, k as int),
                decreases s.len() - k,
            {
                out.push(s[k]);
                k = k + 1;
                assert(out@ =~= before + s@.subrange(0, k as int));
            }
            proof {
                assert(lv.subrange(0, i + 1).drop_last() =~= lv.subrange(0, i as int));
                assert(lv.subrange(0, i + 1).last() == lv[i as int]);
                assert(s@.subrange(0, k as int) =~= s@);
            }
            i = i + 1;
        }
        assert(lv.subrange(0, i as int) =~= lv);
        string_of(&out)
    }

    /// `(width, height)`: the widest line's length in characters, and the
    /// number of lines.
    pub fn dimensions(&self) -> (r: (usize, usize))
        ensures
            r.0 == width(self.lines()),
            r.1 == self.lns@.len(),
    {
        let ls = lines_of_strings(&self.lns);
        (crate::align::block_width(&ls), self.lns.len())
    }

    /// Whether a line of the tile holds a reference (see `first_ref_check`).
    pub fn has_inner_tiles_in_raw_data(&self) -> (r: Result<bool, TileError>)
        ensures
            match r {
                Ok(b) => first_ref_check(self.lines(), 0) == Ok::<bool, TileError>(b),
                Err(e) => first_ref_check(self.lines(), 0) == Err::<bool, TileError>(e),
            },
    {
        let ls = lines_of_strings(&self.lns);
        let ghost lv = self.lines();
        let mut i: usize = 0;
        while i < ls.len()
            invariant
                lv == lines_view(ls@),
                lv == self.lines(),
                i <= ls.len(),
                first_ref_check(lv, 0) == first_ref_check(lv, i as int),
            decreases ls.len() - i,
        {
            assert(lv[i as int] == ls@[i as int]@);
            match next_reference(&ls[i], 0) {
                Err(e) => {
                    assert(first_ref_check(lv, i as int) == Err::<bool, TileError>(e));
                    return Err(e);
                },
                Ok(Some(_)) => {
                    assert(first_ref_check(lv, i as int) == Ok::<bool, TileError>(true));
                    return Ok(true);
                },
                Ok(None) => {
                    assert(first_ref_check(lv, i as int) == first_ref_check(lv, i + 1));
                },
            }
            i = i + 1;
        }
        Ok(false)
    }

    /// The names referred to on each line, in order.
    pub fn inner_tiles_in_raw_data(&self) -> (r: Result<Vec<Vec<String>>, TileError>)
        ensures
            match r {
                Ok(v) => lines_ok(self.lines()) && v@.len() == self.lns@.len() && forall|i: int| 0 <= i < v@.len() ==> #[trigger] strings_view(v@[i]@) == names_of(self.lines()[i]),
                Err(e) => e == TileError::MalformedReference && !lines_ok(self.lines()),
            },
    {
        let ls = lines_of_strings(&self.lns);
        let ghost lv = self.lines();
        assert(lines_view(ls@).len() == ls@.len());
        assert(strings_view(self.lns@).len() == self.lns@.len());
        let mut out: Vec<Vec<String>> = Vec::new();
        let mut i: usize = 0;
        while i < ls.len()
            invariant
                lv == lines_view(ls@),
                lv == self.lines(),
                ls@.len() == self.lns@.len(),
                i <= ls.len(),
                out.len() == i,
                forall|k: int| 0 <= k < i ==> (#[trigger] parse_line(lv[k])) is Some,
                forall|k: int| 0 <= k < i ==> #[trigger] strings_view(out@[k]@) == names_of(lv[k]),
            decreases ls.len() - i,
        {
            assert(lv[i as int] == ls@[i as int]@);
            match scan_line(&ls[i]) {
                Err(e) => {
                    assert(parse_line(lv[i as int]) is None);
                    assert(!lines_ok(lv));
                    return Err(e);
                },
                Ok((_texts, names)) => {
                    out.push(strings_of_lines(&names));
                },
            }
            i = i + 1;
        }
        Ok(out)
    }

    /// The registered names that the tile reaches through references, each once.
    pub fn inner_tiles(&self, reg: &Registry) -> (r: Result<Vec<String>, TileError>)
        ensures
            match r {
                Ok(v) => strings_view(v@).no_duplicates() && forall|n: Seq<char>| #[trigger] strings_view(v@).contains(n) <==> reachable(*reg, self.lines(), n) && reg.raw_get(n) is Some,
                Err(e) => e == TileError::MalformedReference && !closure_ok(*reg, self.lines()),
            },
    {
        let ls = lines_of_strings(&self.lns);
        match explore(reg, &ls) {
            Err(e) => Err(e),
            Ok((vis, _mis)) => {
                let out = strings_of_lines(&vis);
                Ok(out)
            },
        }
    }

    /// The names the tile reaches that have no registered tile, each once.
    /// A reference to such a name adds nothing to the rendered text (inside
    /// a registered tile it takes the stored resolved text, if any), so
    /// these are the names a render reports as not found.
    pub fn names_not_found(&self, reg: &Registry) -> (r: Result<Vec<String>, TileError>)
        ensures
            match r {
                Ok(v) => strings_view(v@).no_duplicates() && forall|n: Seq<char>| #[trigger] strings_view(v@).contains(n) <==> reachable(*reg, self.lines(), n) && reg.raw_get(n) is None,
                Err(e) => e == TileError::MalformedReference && !closure_ok(*reg, self.lines()),
            },
    {
        let ls = lines_of_strings(&self.lns);
        match explore(reg, &ls) {
            Err(e) => Err(e),
            Ok((_vis, mis)) => Ok(strings_of_lines(&mis)),
        }
    }

    /// The registered tiles with no lines that the tile reaches, each once,
    /// in depth-first order of discovery: the references of each line in
    /// turn, each tile's own references before the tile's next sibling.
    pub fn get_names_of_blank_inner_tiles(&self, reg: &Registry) -> (r: Result<Vec<String>, TileError>)
        ensures
            match r {
                Ok(v) => strings_view(v@) == blank_only(*reg, dfs_order(*reg, all_names(self.lines()), seq![]))
                    && strings_view(v@).no_duplicates(),
                Err(e) => e == TileError::MalformedReference && !closure_ok(*reg, self.lines()),
            },
    {
        let ls = lines_of_strings(&self.lns);
        match explore(reg, &ls) {
            Err(e) => {
                return Err(e);
            },
            Ok(_) => {},
        }
        let start = names_in_lines(&ls);
        let order = discover(reg, &start);
        let ghost ov = lines_view(order@);
        proof {
            lemma_dfs_order_distinct(*reg, all_names(self.lines()), seq![]);
        }
        let mut out: Vec<String> = Vec::new();
        let mut i: usize = 0;
        while i < order.len()
            invariant
                ov == lines_view(order@),
                i <= order.len(),
                strings_view(out@) == blank_only(*reg, ov.subrange(0, i as int)),
            decreases order.len() - i,
        {
            proof {
                let p = ov.subrange(0, i + 1);
                assert(p.drop_last() =~= ov.subrange(0, i as int));
                assert(p.last() == order@[i as int]@);
            }
            let ghost before = strings_view(out@);
            match reg.get(&order[i]) {
                Some(t) => {
                    if t.lns.len() == 0 {
                        out.push(string_of(&order[i]));
                        assert(strings_view(out@) =~= before.push(order@[i as int]@));
                    }
                },
                None => {},
            }
            i = i + 1;
        }
        proof {
            assert(ov.subrange(0, i as int) =~= ov);
            lemma_blank_only(*reg, ov);
        }
        Ok(out)
    }

    /// The tile with `other` set to its right (see `pad_concat`), after
    /// registering placeholders for what the lines reach.
    pub fn add(self, reg: &mut Registry, other: RTile) -> (r: Result<RTile, TileError>)
        ensures
            match r {
                Ok(t) => t.name is None && t.do_trimming == self.do_trimming && t.lines() == pad_concat(self.lines(), other.lines())
                    && materialized(*old(reg), *final(reg), pad_concat(self.lines(), other.lines())),
                Err(e) => e == TileError::MalformedReference && !closure_ok(*old(reg), pad_concat(self.lines(), other.lines())) && unchanged(*old(reg), *final(reg)),
            },
    {
        let mut ls = lines_of_strings(&self.lns);
        let o = lines_of_strings(&other.lns);
        append_lines(&mut ls, &o);
        match build(reg, ls, false) {
            Err(e) => Err(e),
            Ok(t) => Ok(RTile { name: t.name, lns: t.lns, do_trimming: self.do_trimming }),
        }
    }

    /// Sets `other` to the right of the tile (see `pad_concat`).
    pub fn add_assign(&mut self, other: RTile)
        ensures
            final(self).lines() == pad_concat(old(self).lines(), other.lines()),
            final(self).name == old(self).name,
            final(self).do_trimming == old(self).do_trimming,
    {
        let mut ls = lines_of_strings(&self.lns);
        let o = lines_of_strings(&other.lns);
        append_lines(&mut ls, &o);
        self.lns = strings_of_lines(&ls);
    }

    /// The tile with `other` below it, after registering placeholders for
    /// what the lines reach.
    pub fn bitor(self, reg: &mut Registry, other: RTile) -> (r: Result<RTile, TileError>)
        ensures
            match r {
                Ok(t) => t.name is None && t.do_trimming == self.do_trimming && t.lines() == self.lines() + other.lines()
                    && materialized(*old(reg), *final(reg), self.lines() + other.lines()),
                Err(e) => e == TileError::MalformedReference && !closure_ok(*old(reg), self.lines() + other.lines()) && unchanged(*old(reg), *final(reg)),
            },
    {
        let mut ls = lines_of_strings(&self.lns);
        let o = lines_of_strings(&other.lns);
        stack_lines(&mut ls, &o);
        match build(reg, ls, false) {
            Err(e) => Err(e),
            Ok(t) => Ok(RTile { name: t.name, lns: t.lns, do_trimming: self.do_trimming }),
        }
    }

    /// Puts `other` below the tile.
    pub fn bitor_assign(&mut self, other: RTile)
        ensures
            final(self).lines() == old(self).lines() + other.lines(),
            final(self).name == old(self).name,
            final(self).do_trimming == old(self).do_trimming,
    {
        let mut ls = lines_of_strings(&self.lns);
        let o = lines_of_strings(&other.lns);
        stack_lines(&mut ls, &o);
        self.lns = strings_of_lines(&ls);
    }

    /// The texts of the items of `x` set side by side, this tile between
    /// each two, then `last` to the right of all; when `last` is given,
    /// placeholders are registered for what the result reaches.
    pub fn join(&self, reg: &mut Registry, x: &Vec<JoinItem>, last: Option<RTile>) -> (r: Result<RTile, TileError>)
        ensures
            match rendered_all(*old(reg), x@) {
                Err(e) => r == Err::<RTile, TileError>(e) && unchanged(*old(reg), *final(reg)),
                Ok(texts) => {
                    let ls = joined(item_blocks(texts), self.lines());
                    match last {
                        None => r matches Ok(t) && t.lines() == ls && t.do_trimming && t.name is None && unchanged(*old(reg), *final(reg)),
                        Some(l) => match r {
                            Ok(t) => t.lines() == pad_concat(ls, l.lines()) && t.do_trimming && t.name is None
                                && materialized(*old(reg), *final(reg), pad_concat(ls, l.lines())),
                            Err(e) => e == TileError::MalformedReference && !closure_ok(*old(reg), pad_concat(ls, l.lines()))
                                && unchanged(*old(reg), *final(reg)),
                        },
                    }
                },
            },
    {
        let blocks = match render_blocks(reg, x) {
            Err(e) => {
                proof { lemma_unchanged_refl(*reg); }
                return Err(e);
            },
            Ok(b) => b,
        };
        let ghost bv = block_views(blocks@);
        let sep = lines_of_strings(&self.lns);
        let mut res: Vec<Vec<char>> = Vec::new();
        let mut i: usize = 0;
        while i < blocks.len()
            invariant
                bv == block_views(blocks@),
                lines_view(sep@) == self.lines(),
                i <= blocks.len(),
                lines_view(res@) == joined(bv.subrange(0, i as int), self.lines()),
            decreases blocks.len() - i,
        {
            let ghost before = lines_view(res@);
            if i > 0 {
                append_lines(&mut res, &sep);
            }
            append_lines(&mut res, &blocks[i]);
            proof {
                let p = bv.subrange(0, i + 1);
                assert(p.drop_last() =~= bv.subrange(0, i as int));
                assert(p.last() == bv[i as int]);
                if i == 0 {
                    assert(before =~= seq![]);
                }
            }
            i = i + 1;
        }
        assert(bv.subrange(0, i as int) =~= bv);
        match last {
            None => {
                proof { lemma_unchanged_refl(*reg); }
                Ok(RTile { name: None, lns: strings_of_lines(&res), do_trimming: true })
            },
            Some(l) => {
                let o = lines_of_strings(&l.lns);
                append_lines(&mut res, &o);
                match materialize(reg, &res) {
                    Err(e) => Err(e),
                    Ok(()) => Ok(RTile { name: None, lns: strings_of_lines(&res), do_trimming: true }),
                }
            },
        }
    }

    /// The texts of the items of `x` stacked, each followed by this tile
    /// (the last one by `last`, or nothing), set to its right when
    /// `inline`, else below it (see `vjoined`). In `inline` mode
    /// placeholders are registered for what the result reaches.
    pub fn vjoin(&self, reg: &mut Registry, x: &Vec<JoinItem>, inline: bool, last: Option<RTile>) -> (r: Result<RTile, TileError>)
        ensures
            match rendered_all(*old(reg), x@) {
                Err(e) => r == Err::<RTile, TileError>(e) && unchanged(*old(reg), *final(reg)),
                Ok(texts) => {
                    let lastl = match last {
                        Some(l) => l.lines(),
                        None => seq![],
                    };
                    let ls = vjoined(item_blocks(texts), self.lines(), lastl, inline, texts.len() as int);
                    if inline {
                        match r {
                            Ok(t) => t.lines() == ls && t.do_trimming && t.name is None && materialized(*old(reg), *final(reg), ls),
                            Err(e) => e == TileError::MalformedReference && !closure_ok(*old(reg), ls) && unchanged(*old(reg), *final(reg)),
                        }
                    } else {
                        r matches Ok(t) && t.lines() == ls && t.do_trimming && t.name is None && unchanged(*old(reg), *final(reg))
                    }
                },
            },
    {
        let blocks = match render_blocks(reg, x) {
            Err(e) => {
                proof { lemma_unchanged_refl(*reg); }
                return Err(e);
            },
            Ok(b) => b,
        };
        let ghost bv = block_views(blocks@);
        let sep = lines_of_strings(&self.lns);
        let lastv: Vec<Vec<char>> = match &last {
            Some(l) => lines_of_strings(&l.lns),
            None => Vec::new(),
        };
        let ghost lastl = match last {
            Some(l) => l.lines(),
            None => seq![],
        };
        assert(lines_view(lastv@) == lastl) by {
            if last is None {
                assert(lines_view(lastv@) =~= seq![]);
            }
        }
        let n = blocks.len();
        let mut res: Vec<Vec<char>> = Vec::new();
        let mut i: usize = 0;
        assert(lines_view(res@) =~= seq![]);
        while i < n
            invariant
                n == blocks.len(),
                bv == block_views(blocks@),
                bv.len() == n,
                lines_view(sep@) == self.lines(),
                lines_view(lastv@) == lastl,
                i <= n,
                lines_view(res@) == vjoined(bv, self.lines(), lastl, inline, i as int),
            decreases n - i,
        {
            let mut block = copy_lines(&blocks[i]);
            let after = if i + 1 < n {
                &sep
            } else {
                &lastv
            };
            if inline {
                append_lines(&mut block, after);
            } else {
                stack_lines(&mut block, after);
            }
            stack_lines(&mut res, &block);
            i = i + 1;
        }
        if inline {
            match materialize(reg, &res) {
                Err(e) => Err(e),
                Ok(()) => Ok(RTile { name: None, lns: strings_of_lines(&res), do_trimming: true }),
            }
        } else {
            proof { lemma_unchanged_refl(*reg); }
            Ok(RTile { name: None, lns: strings_of_lines(&res), do_trimming: true })
        }
    }
}

/// Appends copies of the lines of `b` below those of `a`.
fn stack_lines(a: &mut Vec<Vec<char>>, b: &Vec<Vec<char>>)
    ensures
        lines_view(final(a)@) == lines_view(old(a)@) + lines_view(b@),
{
    let ghost a0 = lines_view(a@);
    let n0 = a.len();
    let mut i: usize = 0;
    while i < b.len()
        invariant
            n0 == a0.len(),
            i <= b.len(),
            a.len() == n0 + i,
            forall|k: int| 0 <= k < n0 ==> (#[trigger] a@[k])@ == a0[k],
            forall|k: int| 0 <= k < i ==> (#[trigger] a@[n0 + k])@ == b@[k]@,
        decreases b.len() - i,
    {
        a.push(copy_chars(&b[i]));
        i = i + 1;
    }
    assert(lines_view(a@) =~= a0 + lines_view(b@)) by {
        assert forall|k: int| n0 <= k < a.len() implies (#[trigger] a@[k])@ == b@[k - n0]@ by {
            assert(a@[n0 + (k - n0)] == a@[k]);
        }
    }
}

/// Values that make a trimmed tile.
pub trait MacroAttributeForT {
    /// The lines the value stands for (a tile stands for its rendered
    /// text), or the error rendering it gives.
    spec fn source(&self, reg: Registry) -> Result<Seq<Seq<char>>, TileError>;

    /// A trimmed tile of the value's lines, after registering placeholders for what the lines reach.
    fn process(&self, reg: &mut Registry) -> (r: Result<RTile, TileError>)
        ensures
            match self.source(*old(reg)) {
                Err(e) => r == Err::<RTile, TileError>(e) && unchanged(*old(reg), *final(reg)),
                Ok(ls) => match r {
                    Ok(t) => t.name is None && t.do_trimming && t.lines() == crate::text::canonical(ls)
                        && materialized(*old(reg), *final(reg), ls),
                    Err(e) => e == TileError::MalformedReference && !closure_ok(*old(reg), ls)
                        && unchanged(*old(reg), *final(reg)),
                },
            },
    ;
}

impl<'a> MacroAttributeForT for &'a str {
    open spec fn source(&self, reg: Registry) -> Result<Seq<Seq<char>>, TileError> {
        Ok(split_lines((*self)@))
    }

    fn process(&self, reg: &mut Registry) -> (r: Result<RTile, TileError>) {
        RTile::construct_from_str(reg, *self)
    }
}

impl MacroAttributeForT for String {
    open spec fn source(&self, reg: Registry) -> Result<Seq<Seq<char>>, TileError> {
        Ok(split_lines(self@))
    }

    fn process(&self, reg: &mut Registry) -> (r: Result<RTile, TileError>) {
        RTile::construct_from_str(reg, self.as_str())
    }
}

impl MacroAttributeForT for RTile {
    open spec fn source(&self, reg: Registry) -> Result<Seq<Seq<char>>, TileError> {
        match render(reg, self.lines(), self.do_trimming) {
            Ok(text) => Ok(split_lines(text)),
            Err(e) => Err(e),
        }
    }

    fn process(&self, reg: &mut Registry) -> (r: Result<RTile, TileError>) {
        match self.to_string(reg) {
            Err(e) => {
                proof {
                    lemma_unchanged_refl(*reg);
                }
                Err(e)
            },
            Ok(s) => RTile::construct_from_str(reg, s.as_str()),
        }
    }
}

impl<'a> MacroAttributeForT for Vec<&'a str> {
    open spec fn source(&self, reg: Registry) -> Result<Seq<Seq<char>>, TileError> {
        Ok(strs_view(self@))
    }

    fn process(&self, reg: &mut Registry) -> (r: Result<RTile, TileError>) {
        RTile::new_str(reg, copy_strs(self))
    }
}

impl MacroAttributeForT for Vec<String> {
    open spec fn source(&self, reg: Registry) -> Result<Seq<Seq<char>>, TileError> {
        Ok(strings_view(self@))
    }

    fn process(&self, reg: &mut Registry) -> (r: Result<RTile, TileError>) {
        RTile::new(reg, copy_strings(self))
    }
}

/// Values that make an untrimmed tile.
pub trait MacroAttributeForK {
    /// The lines the value stands for (a tile stands for its rendered
    /// text), or the error rendering it gives.
    spec fn source(&self, reg: Registry) -> Result<Seq<Seq<char>>, TileError>;

    /// An untrimmed tile of the value's lines, kept as they are, after registering placeholders for what the lines reach.
    fn process(&self, reg: &mut Registry) -> (r: Result<RTile, TileError>)
        ensures
            match self.source(*old(reg)) {
                Err(e) => r == Err::<RTile, TileError>(e) && unchanged(*old(reg), *final(reg)),
                Ok(ls) => match r {
                    Ok(t) => t.name is None && !t.do_trimming && t.lines() == ls
                        && materialized(*old(reg), *final(reg), ls),
                    Err(e) => e == TileError::MalformedReference && !closure_ok(*old(reg), ls)
                        && unchanged(*old(reg), *final(reg)),
                },
            },
    ;
}

impl<'a> MacroAttributeForK for &'a str {
    open spec fn source(&self, reg: Registry) -> Result<Seq<Seq<char>>, TileError> {
        Ok(split_lines((*self)@))
    }

    fn process(&self, reg: &mut Registry) -> (r: Result<RTile, TileError>) {
        RTile::from_str_without_trimming(reg, *self)
    }
}

impl MacroAttributeForK for String {
    open spec fn source(&self, reg: Registry) -> Result<Seq<Seq<char>>, TileError> {
        Ok(split_lines(self@))
    }

    fn process(&self, reg: &mut Registry) -> (r: Result<RTile, TileError>) {
        RTile::from_str_without_trimming(reg, self.as_str())
    }
}

impl MacroAttributeForK for RTile {
    open spec fn source(&self, reg: Registry) -> Result<Seq<Seq<char>>, TileError> {
        match render(reg, self.lines(), self.do_trimming) {
            Ok(text) => Ok(split_lines(text)),
            Err(e) => Err(e),
        }
    }

    fn process(&self, reg: &mut Registry) -> (r: Result<RTile, TileError>) {
        match self.to_string(reg) {
            Err(e) => {
                proof {
                    lemma_unchanged_refl(*reg);
                }
                Err(e)
            },
            Ok(s) => RTile::from_str_without_trimming(reg, s.as_str()),
        }
    }
}

impl<'a> MacroAttributeForK for Vec<&'a str> {
    open spec fn source(&self, reg: Registry) -> Result<Seq<Seq<char>>, TileError> {
        Ok(strs_view(self@))
    }

    fn process(&self, reg: &mut Registry) -> (r: Result<RTile, TileError>) {
        RTile::new_without_trimming_str(reg, copy_strs(self))
    }
}

impl MacroAttributeForK for Vec<String> {
    open spec fn source(&self, reg: Registry) -> Result<Seq<Seq<char>>, TileError> {
        Ok(strings_view(self@))
    }

    fn process(&self, reg: &mut Registry) -> (r: Result<RTile, TileError>) {
        RTile::new_without_trimming(reg, copy_strings(self))
    }
}

fn copy_strs<'a>(v: &Vec<&'a str>) -> (r: Vec<&'a str>)
    ensures
        r@ == v@,
{
    let mut r: Vec<&'a str> = Vec::new();
    let mut i: usize = 0;
    while i < v.len()
        invariant
            i <= v.len(),
            r@ == v@.subrange(0, i as int),
        decreases v.len() - i,
    {
        r.push(v[i]);
        i = i + 1;
        assert(r@ =~= v@.subrange(0, i as int));
    }
    assert(r@ =~= v@);
    r
}

fn copy_strings(v: &Vec<String>) -> (r: Vec<String>)
    ensures
        r@ == v@,
{
    let mut r: Vec<String> = Vec::new();
    let mut i: usize = 0;
    while i < v.len()
        invariant
            i <= v.len(),
            r@ == v@.subrange(0, i as int),
        decreases v.len() - i,
    {
        r.push(v[i].clone());
        i = i + 1;
        assert(r@ =~= v@.subrange(0, i as int));
    }
    assert(r@ =~= v@);
    r
}

/// A copy of the tile.
pub fn copy_tile(t: &RTile) -> (r: RTile)
    ensures
        r.name == t.name,
        r.lns@ == t.lns@,
        r.do_trimming == t.do_trimming,
{
    let name = match &t.name {
        Some(n) => Some(n.clone()),
        None => None,
    };
    let mut lns: Vec<String> = Vec::new();
    let mut i: usize = 0;
    while i < t.lns.len()
        invariant
            i <= t.lns.len(),
            lns@ == t.lns@.subrange(0, i as int),
        decreases t.lns.len() - i,
    {
        lns.push(t.lns[i].clone());
        i = i + 1;
        assert(lns@ =~= t.lns@.subrange(0, i as int));
    }
    assert(lns@ =~= t.lns@);
    RTile { name, lns, do_trimming: t.do_trimming }
}

proof fn lemma_unchanged_refl(r: Registry)
    ensures
        unchanged(r, r),
{
}

pub open spec fn block_views(bs: Seq<Vec<Vec<char>>>) -> Seq<Seq<Seq<char>>> {
    bs.map_values(|b: Vec<Vec<char>>| lines_view(b@))
}

fn copy_lines(a: &Vec<Vec<char>>) -> (r: Vec<Vec<char>>)
    ensures
        lines_view(r@) == lines_view(a@),
{
    let mut r: Vec<Vec<char>> = Vec::new();
    stack_lines(&mut r, a);
    assert(lines_view(r@) =~= lines_view(a@));
    r
}

proof fn lemma_rendered_prefix(reg: Registry, tiles: Seq<JoinItem>, k: int)
    requires
        0 <= k <= tiles.len(),
        rendered_all(reg, tiles.subrange(0, k)) is Err,
    ensures
        rendered_all(reg, tiles) == rendered_all(reg, tiles.subrange(0, k)),
    decreases tiles.len() - k,
{
    if k == tiles.len() {
        assert(tiles.subrange(0, k) =~= tiles);
    } else {
        let p = tiles.drop_last();
        assert(p.subrange(0, k) =~= tiles.subrange(0, k));
        lemma_rendered_prefix(reg, p, k);
    }
}

/// The canonical lines of each item's text; the first error if any.
fn render_blocks(reg: &Registry, x: &Vec<JoinItem>) -> (r: Result<Vec<Vec<Vec<char>>>, TileError>)
    ensures
        match r {
            Ok(b) => rendered_all(*reg, x@) matches Ok(texts) && block_views(b@) == item_blocks(texts),
            Err(e) => rendered_all(*reg, x@) == Err::<Seq<Seq<char>>, TileError>(e),
        },
{
    let mut out: Vec<Vec<Vec<char>>> = Vec::new();
    let ghost mut texts: Seq<Seq<char>> = seq![];
    let mut i: usize = 0;
    while i < x.len()
        invariant
            i <= x.len(),
            rendered_all(*reg, x@.subrange(0, i as int)) == Ok::<Seq<Seq<char>>, TileError>(texts),
            block_views(out@) == item_blocks(texts),
        decreases x.len() - i,
    {
        let ghost p = x@.subrange(0, i + 1);
        assert(p.drop_last() =~= x@.subrange(0, i as int));
        assert(p.last() == x@[i as int]);
        let text = match &x[i] {
            JoinItem::Text(s) => s.clone(),
            JoinItem::Block(t) => match t.to_string(reg) {
                Err(e) => {
                    proof {
                        lemma_rendered_prefix(*reg, x@, i + 1);
                    }
                    return Err(e);
                },
                Ok(s) => s,
            },
        };
        assert(item_text(*reg, x@[i as int]) == Ok::<Seq<char>, TileError>(text@));
        let s = text;
        let chars = chars_of(s.as_str());
        let parts = split_text(&chars);
        let block = canonicalize(&parts);
        let ghost before = block_views(out@);
        let ghost bl = lines_view(block@);
        assert(bl == crate::text::canonical(split_lines(s@)));
        out.push(block);
        proof {
            let t2 = texts.push(s@);
            assert(block_views(out@) =~= before.push(bl));
            assert(item_blocks(t2) =~= item_blocks(texts).push(crate::text::canonical(split_lines(s@))));
            texts = t2;
        }
        i = i + 1;
    }
    assert(x@.subrange(0, i as int) =~= x@);
    Ok(out)
}

} // verus!
