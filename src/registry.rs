//! The named-tile store: raw tiles by name and their last resolved text.

use vstd::prelude::*;
use crate::RTile;
use crate::text::{chars_of, lines_view, strings_of_lines, strings_view};
use crate::tile::copy_tile;

verus! {

/// Compares two character vectors.
pub fn same_chars(a: &Vec<char>, b: &Vec<char>) -> (r: bool)
    ensures
        r == (a@ == b@),
{
    if a.len() != b.len() {
        return false;
    }
    let mut i: usize = 0;
    while i < a.len()
        invariant
            a.len() == b.len(),
            i <= a.len(),
            forall|j: int| 0 <= j < i ==> a@[j] == b@[j],
        decreases a.len() - i,
    {
        if a[i] != b[i] {
            return false;
        }
        i = i + 1;
    }
    assert(a@ =~= b@);
    true
}

/// A copy of a character vector.
pub fn copy_chars(a: &Vec<char>) -> (r: Vec<char>)
    ensures
        r@ == a@,
{
    let mut r: Vec<char> = Vec::new();
    let mut i: usize = 0;
    while i < a.len()
        invariant
            i <= a.len(),
            r@ == a@.subrange(0, i as int),
        decreases a.len() - i,
    {
        r.push(a[i]);
        i = i + 1;
        assert(r@ =~= a@.subrange(0, i as int));
    }
    assert(r@ =~= a@);
    r
}

/// The first entry named `name`.
pub open spec fn find_entry<V>(es: Seq<(Vec<char>, V)>, name: Seq<char>) -> Option<V>
    decreases es.len(),
{
    if es.len() == 0 {
        None
    } else if es[0].0@ == name {
        Some(es[0].1)
    } else {
        find_entry(es.drop_first(), name)
    }
}

proof fn lemma_find_entry_index<V>(es: Seq<(Vec<char>, V)>, name: Seq<char>, i: int)
    requires
        0 <= i < es.len(),
        es[i].0@ == name,
        forall|j: int| 0 <= j < i ==> es[j].0@ != name,
    ensures
        find_entry(es, name) == Some(es[i].1),
    decreases i,
{
    if i > 0 {
        assert forall|j: int| 0 <= j < i - 1 implies es.drop_first()[j].0@ != name by {
            assert(es.drop_first()[j] == es[j + 1]);
        }
        lemma_find_entry_index(es.drop_first(), name, i - 1);
    }
}

proof fn lemma_find_entry_none<V>(es: Seq<(Vec<char>, V)>, name: Seq<char>)
    requires
        forall|j: int| 0 <= j < es.len() ==> es[j].0@ != name,
    ensures
        find_entry(es, name) is None,
    decreases es.len(),
{
    if es.len() > 0 {
        assert forall|j: int| 0 <= j < es.len() - 1 implies es.drop_first()[j].0@ != name by {
            assert(es.drop_first()[j] == es[j + 1]);
        }
        lemma_find_entry_none(es.drop_first(), name);
    }
}

proof fn lemma_find_entry_some<V>(es: Seq<(Vec<char>, V)>, name: Seq<char>)
    requires
        find_entry(es, name) is Some,
    ensures
        exists|i: int|
            0 <= i < es.len() && es[i].0@ == name && find_entry(es, name) == Some(es[i].1) && forall|j: int|
                0 <= j < i ==> es[j].0@ != name,
    decreases es.len(),
{
    if es[0].0@ != name {
        lemma_find_entry_some(es.drop_first(), name);
        let i = choose|i: int|
            0 <= i < es.drop_first().len() && es.drop_first()[i].0@ == name && find_entry(
                es.drop_first(),
                name,
            ) == Some(es.drop_first()[i].1) && forall|j: int| 0 <= j < i ==> es.drop_first()[j].0@ != name;
        assert(es[i + 1] == es.drop_first()[i]);
        assert forall|j: int| 0 <= j < i + 1 implies es[j].0@ != name by {
            if j > 0 {
                assert(es[j] == es.drop_first()[j - 1]);
            }
        }
    } else {
        assert(es[0].0@ == name);
    }
}

/// The index of the first entry named `name`, or the length.
fn index_of<V>(es: &Vec<(Vec<char>, V)>, name: &Vec<char>) -> (r: usize)
    ensures
        r <= es.len(),
        r < es.len() ==> es@[r as int].0@ == name@ && find_entry(es@, name@) == Some(es@[r as int].1),
        r == es.len() ==> find_entry(es@, name@) is None,
        forall|j: int| 0 <= j < r ==> es@[j].0@ != name@,
{
    let mut i: usize = 0;
    while i < es.len()
        invariant
            i <= es.len(),
            forall|j: int| 0 <= j < i ==> es@[j].0@ != name@,
        decreases es.len() - i,
    {
        if same_chars(&es[i].0, name) {
            proof {
                lemma_find_entry_index(es@, name@, i as int);
            }
            return i;
        }
        i = i + 1;
    }
    proof {
        lemma_find_entry_none(es@, name@);
    }
    i
}

/// Sets the first entry named `name` to `v`, or adds an entry.
fn put_entry<V>(es: &mut Vec<(Vec<char>, V)>, name: Vec<char>, v: V)
    ensures
        forall|n: Seq<char>| #[trigger] find_entry(final(es)@, n) == if n == name@ {
            Some(v)
        } else {
            find_entry(old(es)@, n)
        },
        final(es)@.len() <= old(es)@.len() + 1,
{
    let i = index_of(es, &name);
    let ghost e0 = es@;
    if i < es.len() {
        let ghost nm = name@;
        es.set(i, (name, v));
        proof {
            assert forall|n: Seq<char>| #[trigger] find_entry(es@, n) == if n == nm {
                Some(v)
            } else {
                find_entry(e0, n)
            } by {
                if n == nm {
                    assert forall|j: int| 0 <= j < i implies es@[j].0@ != n by {
                        assert(es@[j] == e0[j]);
                    }
                    lemma_find_entry_index(es@, n, i as int);
                } else {
                    lemma_same_lookup(e0, es@, n);
                }
            }
        }
    } else {
        let ghost nm = name@;
        es.push((name, v));
        proof {
            assert forall|n: Seq<char>| #[trigger] find_entry(es@, n) == if n == nm {
                Some(v)
            } else {
                find_entry(e0, n)
            } by {
                if n == nm {
                    assert forall|j: int| 0 <= j < i implies es@[j].0@ != n by {
                        assert(es@[j] == e0[j]);
                    }
                    lemma_find_entry_index(es@, n, i as int);
                } else {
                    lemma_same_lookup(e0, es@, n);
                }
            }
        }
    }
}

/// Two entry lists agree on `n` when they agree on every entry named `n`
/// and have the same entries named otherwise, position by position, or
/// one is the other with entries not named `n` added or changed.
proof fn lemma_same_lookup<V>(a: Seq<(Vec<char>, V)>, b: Seq<(Vec<char>, V)>, n: Seq<char>)
    requires
        forall|j: int| 0 <= j < a.len() && j < b.len() && (a[j].0@ == n || b[j].0@ == n) ==> a[j] == b[j],
        forall|j: int| a.len() <= j < b.len() ==> b[j].0@ != n,
        forall|j: int| b.len() <= j < a.len() ==> a[j].0@ != n,
    ensures
        find_entry(a, n) == find_entry(b, n),
{
    if find_entry(a, n) is Some {
        lemma_find_entry_some(a, n);
        let i = choose|i: int|
            0 <= i < a.len() && a[i].0@ == n && find_entry(a, n) == Some(a[i].1) && forall|j: int|
                0 <= j < i ==> a[j].0@ != n;
        assert(i < b.len());
        assert(a[i] == b[i]);
        assert forall|j: int| 0 <= j < i implies b[j].0@ != n by {
            assert(a[j].0@ != n);
        }
        lemma_find_entry_index(b, n, i);
    } else if find_entry(b, n) is Some {
        lemma_find_entry_some(b, n);
        let i = choose|i: int|
            0 <= i < b.len() && b[i].0@ == n && find_entry(b, n) == Some(b[i].1) && forall|j: int|
                0 <= j < i ==> b[j].0@ != n;
        assert(a[i] == b[i]);
        assert forall|j: int| 0 <= j < i implies a[j].0@ != n by {
            assert(b[j].0@ != n);
        }
        lemma_find_entry_index(a, n, i);
    }
}

/// The entries not named `name`, in order.
pub open spec fn without<V>(es: Seq<(Vec<char>, V)>, name: Seq<char>) -> Seq<(Vec<char>, V)>
    decreases es.len(),
{
    if es.len() == 0 {
        seq![]
    } else if es.last().0@ == name {
        without(es.drop_last(), name)
    } else {
        without(es.drop_last(), name).push(es.last())
    }
}

proof fn lemma_find_entry_push<V>(a: Seq<(Vec<char>, V)>, e: (Vec<char>, V), n: Seq<char>)
    ensures
        find_entry(a.push(e), n) == if find_entry(a, n) is Some {
            find_entry(a, n)
        } else if e.0@ == n {
            Some(e.1)
        } else {
            None
        },
{
    let b = a.push(e);
    if find_entry(a, n) is Some {
        lemma_find_entry_some(a, n);
        let i = choose|i: int|
            0 <= i < a.len() && a[i].0@ == n && find_entry(a, n) == Some(a[i].1) && forall|j: int|
                0 <= j < i ==> a[j].0@ != n;
        assert forall|j: int| 0 <= j < i implies b[j].0@ != n by {
            assert(b[j] == a[j]);
        }
        assert(b[i] == a[i]);
        lemma_find_entry_index(b, n, i);
    } else {
        assert forall|j: int| 0 <= j < a.len() implies a[j].0@ != n by {
            if a[j].0@ == n {
                lemma_find_entry_index_exists(a, n, j);
            }
        }
        if e.0@ == n {
            assert forall|j: int| 0 <= j < a.len() implies b[j].0@ != n by {
                assert(b[j] == a[j]);
            }
            lemma_find_entry_index(b, n, a.len() as int);
        } else {
            assert forall|j: int| 0 <= j < b.len() implies b[j].0@ != n by {
                if j < a.len() {
                    assert(b[j] == a[j]);
                }
            }
            lemma_find_entry_none(b, n);
        }
    }
}

proof fn lemma_find_entry_index_exists<V>(es: Seq<(Vec<char>, V)>, name: Seq<char>, k: int)
    requires
        0 <= k < es.len(),
        es[k].0@ == name,
    ensures
        find_entry(es, name) is Some,
    decreases k,
{
    if es[0].0@ != name {
        assert(es.drop_first()[k - 1] == es[k]);
        lemma_find_entry_index_exists(es.drop_first(), name, k - 1);
    }
}

proof fn lemma_without<V>(es: Seq<(Vec<char>, V)>, name: Seq<char>, n: Seq<char>)
    ensures
        find_entry(without(es, name), n) == if n == name {
            None
        } else {
            find_entry(es, n)
        },
    decreases es.len(),
{
    if es.len() == 0 {
    } else {
        let p = es.drop_last();
        lemma_without(p, name, n);
        assert(es == p.push(es.last()));
        lemma_find_entry_push(p, es.last(), n);
        if es.last().0@ != name {
            lemma_find_entry_push(without(p, name), es.last(), n);
        }
    }
}

/// Removes every entry named `name`.
fn drop_entries<V>(es: &mut Vec<(Vec<char>, V)>, name: &Vec<char>)
    ensures
        forall|n: Seq<char>| #[trigger] find_entry(final(es)@, n) == if n == name@ {
            None
        } else {
            find_entry(old(es)@, n)
        },
        final(es)@.len() <= old(es)@.len(),
{
    let ghost e0 = es@;
    let mut rest: Vec<(Vec<char>, V)> = Vec::new();
    std::mem::swap(es, &mut rest);
    assert(rest@ =~= e0.subrange(0, e0.len() as int));
    let ghost total = rest@;
    let mut kept: Vec<(Vec<char>, V)> = Vec::new();
    let ghost mut i: int = 0;
    while rest.len() > 0
        invariant
            total == e0,
            0 <= i <= e0.len(),
            rest@ == e0.subrange(i, e0.len() as int),
            kept@ == without(e0.subrange(0, i), name@),
            kept@.len() <= i,
        decreases rest.len(),
    {
        let e = rest.remove(0);
        proof {
            assert(e == e0[i]);
            assert(rest@ =~= e0.subrange(i + 1, e0.len() as int));
            assert(e0.subrange(0, i + 1).drop_last() =~= e0.subrange(0, i));
            assert(e0.subrange(0, i + 1).last() == e0[i]);
        }
        if !same_chars(&e.0, name) {
            kept.push(e);
        }
        proof {
            i = i + 1;
        }
    }
    assert(e0.subrange(0, i) =~= e0);
    *es = kept;
    proof {
        assert forall|n: Seq<char>| #[trigger] find_entry(es@, n) == if n == name@ {
            None
        } else {
            find_entry(e0, n)
        } by {
            lemma_without(e0, name@, n);
        }
    }
}

/// The tiles of one execution context: raw tiles by name, and by name the
/// text that each last resolved to. One context never sees another's tiles.
pub struct Registry {
    raw: Vec<(Vec<char>, RTile)>,
    resolved: Vec<(Vec<char>, Vec<char>)>,
}

impl Registry {
    /// The raw tile registered under `name`.
    pub closed spec fn raw_get(&self, name: Seq<char>) -> Option<RTile> {
        find_entry(self.raw@, name)
    }

    /// The resolved text stored under `name`.
    pub closed spec fn resolved_get(&self, name: Seq<char>) -> Option<Seq<char>> {
        match find_entry(self.resolved@, name) {
            Some(v) => Some(v@),
            None => None,
        }
    }

    /// An upper bound on the number of registered names.
    pub closed spec fn size(&self) -> nat {
        self.raw@.len()
    }

    /// Distinct registered names are at most `size()` many.
    pub proof fn lemma_size_bound(&self, names: Seq<Seq<char>>)
        requires
            names.no_duplicates(),
            forall|i: int| 0 <= i < names.len() ==> self.raw_get(#[trigger] names[i]) is Some,
        ensures
            names.len() <= self.size(),
    {
        let keys = self.raw@.map_values(|e: (Vec<char>, RTile)| e.0@);
        assert forall|x: Seq<char>| names.to_set().contains(x) implies keys.to_set().contains(x) by {
            let i = choose|i: int| 0 <= i < names.len() && names[i] == x;
            assert(self.raw_get(names[i]) is Some);
            lemma_find_entry_some(self.raw@, x);
            let k = choose|k: int| 0 <= k < self.raw@.len() && self.raw@[k].0@ == x && find_entry(self.raw@, x) == Some(self.raw@[k].1) && forall|j: int| 0 <= j < k ==> self.raw@[j].0@ != x;
            assert(keys[k] == x);
        }
        names.unique_seq_to_set();
        keys.lemma_cardinality_of_set();
        vstd::set_lib::lemma_len_subset(names.to_set(), keys.to_set());
    }

    /// The number of raw entries, an upper bound on the registered names.
    pub fn len(&self) -> (r: usize)
        ensures
            r == self.size(),
    {
        self.raw.len()
    }

    /// An empty registry.
    pub fn new() -> (r: Registry)
        ensures
            forall|n: Seq<char>| r.raw_get(n) is None && r.resolved_get(n) is None,
            r.size() == 0,
    {
        Registry { raw: Vec::new(), resolved: Vec::new() }
    }

    /// The raw tile registered under `name`.
    pub fn get(&self, name: &Vec<char>) -> (r: Option<&RTile>)
        ensures
            r is None <==> self.raw_get(name@) is None,
            r matches Some(t) ==> self.raw_get(name@) == Some(*t),
    {
        let i = index_of(&self.raw, name);
        if i < self.raw.len() {
            Some(&self.raw[i].1)
        } else {
            None
        }
    }

    /// The resolved text stored under `name`.
    pub fn get_resolved(&self, name: &Vec<char>) -> (r: Option<&Vec<char>>)
        ensures
            r is None <==> self.resolved_get(name@) is None,
            r matches Some(v) ==> self.resolved_get(name@) == Some(v@),
    {
        let i = index_of(&self.resolved, name);
        if i < self.resolved.len() {
            Some(&self.resolved[i].1)
        } else {
            None
        }
    }

    /// Registers `tile` under `name`, replacing what was there.
    pub fn set(&mut self, name: Vec<char>, tile: RTile)
        ensures
            forall|n: Seq<char>| #[trigger] final(self).raw_get(n) == if n == name@ {
                Some(tile)
            } else {
                old(self).raw_get(n)
            },
            forall|n: Seq<char>| #[trigger] final(self).resolved_get(n) == old(self).resolved_get(n),
            final(self).size() <= old(self).size() + 1,
    {
        put_entry(&mut self.raw, name, tile);
    }

    /// Stores `text` as the resolved text of `name`.
    pub fn set_resolved(&mut self, name: Vec<char>, text: Vec<char>)
        ensures
            forall|n: Seq<char>| #[trigger] final(self).resolved_get(n) == if n == name@ {
                Some(text@)
            } else {
                old(self).resolved_get(n)
            },
            forall|n: Seq<char>| #[trigger] final(self).raw_get(n) == old(self).raw_get(n),
            final(self).size() == old(self).size(),
    {
        let ghost t = text;
        put_entry(&mut self.resolved, name, text);
        proof {
            assert forall|n: Seq<char>| #[trigger] self.resolved_get(n) == if n == name@ {
                Some(t@)
            } else {
                old(self).resolved_get(n)
            } by {
                assert(find_entry(self.resolved@, n) == if n == name@ { Some(t) } else { find_entry(old(self).resolved@, n) });
            }
        }
    }

    /// Forgets `name` in both maps.
    pub fn remove(&mut self, name: &Vec<char>)
        ensures
            forall|n: Seq<char>| #[trigger] final(self).raw_get(n) == if n == name@ {
                None
            } else {
                old(self).raw_get(n)
            },
            forall|n: Seq<char>| #[trigger] final(self).resolved_get(n) == if n == name@ {
                None
            } else {
                old(self).resolved_get(n)
            },
            final(self).size() <= old(self).size(),
    {
        drop_entries(&mut self.raw, name);
        drop_entries(&mut self.resolved, name);
        proof {
            assert forall|n: Seq<char>| #[trigger] self.resolved_get(n) == if n == name@ {
                None
            } else {
                old(self).resolved_get(n)
            } by {
                assert(find_entry(self.resolved@, n) == if n == name@ { None } else { find_entry(old(self).resolved@, n) });
            }
        }
    }

    /// Forgets every name.
    pub fn clear(&mut self)
        ensures
            forall|n: Seq<char>| final(self).raw_get(n) is None && final(self).resolved_get(n) is None,
            final(self).size() == 0,
    {
        self.raw = Vec::new();
        self.resolved = Vec::new();
    }

    /// The registered names whose raw tile has no lines, each once.
    pub fn blank_names(&self) -> (r: Vec<Vec<char>>)
        ensures
            forall|n: Seq<char>| #[trigger] holds_name(r@, n) <==> (self.raw_get(n) matches Some(t)
                && t.lns@.len() == 0),
            forall|j: int, k: int| 0 <= j < k < r@.len() ==> r@[j]@ != r@[k]@,
    {
        let mut r: Vec<Vec<char>> = Vec::new();
        let mut i: usize = 0;
        while i < self.raw.len()
            invariant
                i <= self.raw.len(),
                forall|n: Seq<char>| #[trigger] holds_name(r@, n) <==> blank_first_before(self.raw@, n, i as int),
                forall|j: int, k: int| 0 <= j < k < r@.len() ==> r@[j]@ != r@[k]@,
            decreases self.raw.len() - i,
        {
            let first = index_of(&self.raw, &self.raw[i].0);
            let ghost before = r@;
            if first == i && self.raw[i].1.lns.len() == 0 {
                let key = copy_chars(&self.raw[i].0);
                proof {
                    assert forall|j: int| 0 <= j < before.len() implies before[j]@ != key@ by {
                        if before[j]@ == key@ {
                            assert(holds_name(before, key@));
                            let k = choose|k: int| 0 <= k < i && self.raw@[k].0@ == key@ && find_entry(self.raw@, key@) == Some(self.raw@[k].1) && self.raw@[k].1.lns@.len() == 0;
                            assert(self.raw@[k].0@ != key@);
                        }
                    }
                }
                r.push(key);
                proof {
                    assert forall|n: Seq<char>| #[trigger] holds_name(r@, n) <==> blank_first_before(self.raw@, n, i + 1) by {
                        if holds_name(r@, n) {
                            let j = choose|j: int| 0 <= j < r@.len() && r@[j]@ == n;
                            if j == before.len() {
                                assert(self.raw@[i as int].0@ == n);
                            } else {
                                assert(r@[j] == before[j]);
                                assert(holds_name(before, n));
                            }
                        }
                        if blank_first_before(self.raw@, n, i + 1) {
                            let k = choose|k: int| 0 <= k < i + 1 && self.raw@[k].0@ == n && find_entry(self.raw@, n) == Some(self.raw@[k].1) && self.raw@[k].1.lns@.len() == 0;
                            if k == i {
                                assert(r@[before.len() as int]@ == n);
                            } else {
                                assert(blank_first_before(self.raw@, n, i as int));
                                assert(holds_name(before, n));
                                let j = choose|j: int| 0 <= j < before.len() && before[j]@ == n;
                                assert(r@[j] == before[j]);
                            }
                        }
                    }
                }
            } else {
                proof {
                    assert forall|n: Seq<char>| #[trigger] holds_name(r@, n) <==> blank_first_before(self.raw@, n, i + 1) by {
                        if blank_first_before(self.raw@, n, i + 1) {
                            let k = choose|k: int| 0 <= k < i + 1 && self.raw@[k].0@ == n && find_entry(self.raw@, n) == Some(self.raw@[k].1) && self.raw@[k].1.lns@.len() == 0;
                            if k == i {
                                if first != i {
                                    assert(self.raw@[first as int].0@ == n);
                                    assert(find_entry(self.raw@, n) == Some(self.raw@[first as int].1));
                                }
                            } else {
                                assert(blank_first_before(self.raw@, n, i as int));
                            }
                        }
                    }
                }
            }
            i = i + 1;
        }
        proof {
            assert forall|n: Seq<char>| #[trigger] holds_name(r@, n) <==> (self.raw_get(n) matches Some(t) && t.lns@.len() == 0) by {
                if self.raw_get(n) matches Some(t) && t.lns@.len() == 0 {
                    lemma_find_entry_some(self.raw@, n);
                    let k = choose|k: int| 0 <= k < self.raw@.len() && self.raw@[k].0@ == n && find_entry(self.raw@, n) == Some(self.raw@[k].1) && forall|j: int| 0 <= j < k ==> self.raw@[j].0@ != n;
                    assert(blank_first_before(self.raw@, n, i as int));
                }
                if holds_name(r@, n) {
                    assert(blank_first_before(self.raw@, n, i as int));
                }
            }
        }
        r
    }
}

/// Some vector in `r` holds exactly the characters `n`.
pub open spec fn holds_name(r: Seq<Vec<char>>, n: Seq<char>) -> bool {
    exists|j: int| 0 <= j < r.len() && r[j]@ == n
}

/// Among the first `i` entries, one is the entry `n` looks up to, and its tile is blank.
pub open spec fn blank_first_before(es: Seq<(Vec<char>, RTile)>, n: Seq<char>, i: int) -> bool {
    exists|k: int| 0 <= k < i && es[k].0@ == n && find_entry(es, n) == Some(es[k].1) && es[k].1.lns@.len() == 0
}

/// Stores `value` as the resolved text of `key`.
pub fn set_tiles(reg: &mut Registry, key: String, value: String)
    ensures
        forall|n: Seq<char>| #[trigger] final(reg).resolved_get(n) == if n == key@ {
            Some(value@)
        } else {
            old(reg).resolved_get(n)
        },
        forall|n: Seq<char>| #[trigger] final(reg).raw_get(n) == old(reg).raw_get(n),
{
    reg.set_resolved(chars_of(key.as_str()), chars_of(value.as_str()));
}

/// Registers `value` under `key`.
pub fn set_raw_tiles(reg: &mut Registry, key: String, value: RTile)
    ensures
        forall|n: Seq<char>| #[trigger] final(reg).raw_get(n) == if n == key@ {
            Some(value)
        } else {
            old(reg).raw_get(n)
        },
        forall|n: Seq<char>| #[trigger] final(reg).resolved_get(n) == old(reg).resolved_get(n),
{
    reg.set(chars_of(key.as_str()), value);
}

/// A copy of the tile registered under `key`.
pub fn get_raw_tile(reg: &Registry, key: &str) -> (r: Option<RTile>)
    ensures
        match reg.raw_get(key@) {
            None => r is None,
            Some(t) => r matches Some(c) && c.name == t.name && c.lns@ == t.lns@ && c.do_trimming == t.do_trimming,
        },
{
    match reg.get(&chars_of(key)) {
        Some(t) => Some(copy_tile(t)),
        None => None,
    }
}

/// Forgets `key`: its raw tile and its resolved text.
pub fn remove_tile(reg: &mut Registry, key: &str)
    ensures
        forall|n: Seq<char>| #[trigger] final(reg).raw_get(n) == if n == key@ {
            None
        } else {
            old(reg).raw_get(n)
        },
        forall|n: Seq<char>| #[trigger] final(reg).resolved_get(n) == if n == key@ {
            None
        } else {
            old(reg).resolved_get(n)
        },
{
    reg.remove(&chars_of(key));
}

/// Forgets every tile.
pub fn clear_tiles(reg: &mut Registry)
    ensures
        forall|n: Seq<char>| final(reg).raw_get(n) is None && final(reg).resolved_get(n) is None,
{
    reg.clear();
}

/// The registered names whose raw tile has no lines, each once.
pub fn get_blank_tiles(reg: &Registry) -> (r: Vec<String>)
    ensures
        strings_view(r@).no_duplicates(),
        forall|n: Seq<char>| #[trigger] strings_view(r@).contains(n) <==> (reg.raw_get(n) matches Some(t) && t.lns@.len() == 0),
{
    let names = reg.blank_names();
    let out = strings_of_lines(&names);
    proof {
        let v = lines_view(names@);
        assert(strings_view(out@) == v);
        assert forall|n: Seq<char>| #[trigger] v.contains(n) <==> holds_name(names@, n) by {
            if v.contains(n) {
                let j = choose|j: int| 0 <= j < v.len() && v[j] == n;
                assert(names@[j]@ == n);
            }
            if holds_name(names@, n) {
                let j = choose|j: int| 0 <= j < names@.len() && names@[j]@ == n;
                assert(v[j] == n);
            }
        }
    }
    out
}

} // verus!
