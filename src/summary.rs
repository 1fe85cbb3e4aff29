//! Summaries of an extracted expression, given as its nodes in order (each
//! node's children come before it): how many times each motif or constant
//! occurs, and the total coefficient of each.

use vstd::prelude::*;
use vstd::string::*;
use crate::model::{motif_text, Link};
use crate::parse::{alphabet_to_number, label_value};
use crate::table::render_motif;
use crate::text::{int_text, int_to_text, text_to_int};

verus! {

pub type Node = (Seq<char>, Seq<usize>);

pub open spec fn nodes_view(nodes: Seq<(String, Vec<usize>)>) -> Seq<Node> {
    nodes.map_values(|n: (String, Vec<usize>)| (n.0@, n.1@))
}

/// The vertex that the leaf `j` names.
pub open spec fn label_at(nodes: Seq<Node>, j: usize) -> Option<usize> {
    if j < nodes.len() && nodes[j as int].1.len() == 0 && nodes[j as int].0.len() > 0
        && (forall|k: int| 0 <= k < nodes[j as int].0.len() ==> 'a' <= #[trigger] nodes[j as int].0[k] <= 'z')
        && label_value(nodes[j as int].0) <= usize::MAX {
        Some(label_value(nodes[j as int].0) as usize)
    } else {
        None
    }
}

/// The link that node `j` stands for: `(-- x y)` or `(!- x y)` over two labels.
pub open spec fn link_at(nodes: Seq<Node>, j: usize) -> Option<Link> {
    if j < nodes.len() && nodes[j as int].1.len() == 2 && (nodes[j as int].0 == "--"@ || nodes[j as int].0 == "!-"@) {
        match (label_at(nodes, nodes[j as int].1[0]), label_at(nodes, nodes[j as int].1[1])) {
            (Some(u), Some(v)) => Some(Link { u, v, anti: nodes[j as int].0 == "!-"@ }),
            _ => None,
        }
    } else {
        None
    }
}

/// The motif that node `j` stands for, a `Match` over links.
pub open spec fn motif_at(nodes: Seq<Node>, j: usize) -> Option<Seq<Link>> {
    if j < nodes.len() && nodes[j as int].0 == "Match"@
        && forall|k: int| 0 <= k < nodes[j as int].1.len() ==> (#[trigger] link_at(nodes, nodes[j as int].1[k])) is Some {
        Some(nodes[j as int].1.map_values(|c: usize| link_at(nodes, c).unwrap()))
    } else {
        None
    }
}

/// The key of the term `Morph(pi, m)` or `Const(pi, f)` at node `j`: the
/// motif's text or the constant's name.
pub open spec fn key_at(nodes: Seq<Node>, j: usize) -> Option<Seq<char>> {
    let n = nodes[j as int];
    if n.1.len() != 2 {
        None
    } else if n.0 == "Morph"@ {
        match motif_at(nodes, n.1[1]) {
            Some(m) => Some(motif_text(m)),
            None => None,
        }
    } else if n.0 == "Const"@ && n.1[1] < nodes.len() && nodes[n.1[1] as int].1.len() == 0 {
        Some(nodes[n.1[1] as int].0)
    } else {
        None
    }
}

pub open spec fn get0(m: Map<Seq<char>, int>, k: Seq<char>) -> int {
    if m.contains_key(k) {
        m[k]
    } else {
        0
    }
}

pub open spec fn add_maps(a: Map<Seq<char>, int>, b: Map<Seq<char>, int>) -> Map<Seq<char>, int> {
    Map::new(|k: Seq<char>| a.contains_key(k) || b.contains_key(k), |k: Seq<char>| get0(a, k) + get0(b, k))
}

pub open spec fn scale_map(a: Map<Seq<char>, int>, c: int) -> Map<Seq<char>, int> {
    Map::new(|k: Seq<char>| a.contains_key(k), |k: Seq<char>| a[k] * c)
}

/// The total coefficient of each key in the expression rooted at node `i`;
/// with `weighted` off, each count's coefficient is taken as 1, which counts
/// occurrences instead. Nodes that are none of these add nothing.
pub open spec fn totals(nodes: Seq<Node>, i: usize, weighted: bool) -> Map<Seq<char>, int>
    decreases i,
{
    if i >= nodes.len() {
        Map::empty()
    } else {
        let n = nodes[i as int];
        if n.1.len() == 2 && n.1[0] < i && n.1[1] < i && n.0 == "Union"@ {
            add_maps(totals(nodes, n.1[0], weighted), totals(nodes, n.1[1], weighted))
        } else if n.1.len() == 2 && n.1[1] < i && n.0 == "Count"@ {
            if !weighted {
                totals(nodes, n.1[1], weighted)
            } else if n.1[0] < nodes.len() && nodes[n.1[0] as int].1.len() == 0
                && exists|c: i64| nodes[n.1[0] as int].0 == int_text(c as int) {
                let c = choose|c: i64| nodes[n.1[0] as int].0 == int_text(c as int);
                scale_map(totals(nodes, n.1[1], weighted), c as int)
            } else {
                Map::empty()
            }
        } else {
            match key_at(nodes, i) {
                Some(k) => Map::empty().insert(k, 1),
                None => Map::empty(),
            }
        }
    }
}

pub open spec fn all_fit(m: Map<Seq<char>, int>) -> bool {
    forall|k: Seq<char>| #[trigger] m.contains_key(k) ==> i64::MIN <= m[k] <= i64::MAX
}

/// Every total formed on the way to the totals of node `i` fits in `i64`.
pub open spec fn totals_fit(nodes: Seq<Node>, i: usize, weighted: bool) -> bool
    decreases i,
{
    if i >= nodes.len() {
        true
    } else {
        let n = nodes[i as int];
        if n.1.len() == 2 && n.1[0] < i && n.1[1] < i && n.0 == "Union"@ {
            totals_fit(nodes, n.1[0], weighted) && totals_fit(nodes, n.1[1], weighted)
                && all_fit(add_maps(totals(nodes, n.1[0], weighted), totals(nodes, n.1[1], weighted)))
        } else if n.1.len() == 2 && n.1[1] < i && n.0 == "Count"@ {
            totals_fit(nodes, n.1[1], weighted) && (weighted && n.1[0] < nodes.len() && nodes[n.1[0] as int].1.len() == 0
                && (exists|c: i64| nodes[n.1[0] as int].0 == int_text(c as int)) ==> {
                    let c = choose|c: i64| nodes[n.1[0] as int].0 == int_text(c as int);
                    all_fit(scale_map(totals(nodes, n.1[1], weighted), c as int))
                })
        } else {
            true
        }
    }
}

proof fn lemma_entries_fit(v: Seq<(String, i64)>)
    requires
        keys_distinct(v),
    ensures
        all_fit(entries_map(v)),
{
    lemma_entries(v);
    assert forall|k: Seq<char>| #[trigger] entries_map(v).contains_key(k) implies i64::MIN <= entries_map(v)[k] <= i64::MAX by {
        let a = choose|a: int| 0 <= a < v.len() && (#[trigger] v[a]).0@ == k;
    }
}

pub open spec fn entries_map(v: Seq<(String, i64)>) -> Map<Seq<char>, int>
    decreases v.len(),
{
    if v.len() == 0 {
        Map::empty()
    } else {
        entries_map(v.drop_last()).insert(v.last().0@, v.last().1 as int)
    }
}

pub open spec fn keys_distinct(v: Seq<(String, i64)>) -> bool {
    forall|a: int, b: int| 0 <= a < b < v.len() ==> v[a].0@ != v[b].0@
}

proof fn lemma_entries(v: Seq<(String, i64)>)
    requires
        keys_distinct(v),
    ensures
        forall|k: Seq<char>| entries_map(v).contains_key(k) <==> exists|a: int| 0 <= a < v.len() && (#[trigger] v[a]).0@ == k,
        forall|a: int| 0 <= a < v.len() ==> entries_map(v)[(#[trigger] v[a]).0@] == v[a].1 as int,
    decreases v.len(),
{
    if v.len() > 0 {
        let d = v.drop_last();
        assert(keys_distinct(d));
        lemma_entries(d);
        assert(entries_map(v) == entries_map(d).insert(v.last().0@, v.last().1 as int));
        assert forall|a: int| 0 <= a < d.len() implies #[trigger] d[a] == v[a] by {}
        assert forall|k: Seq<char>| entries_map(v).contains_key(k) implies exists|a: int| 0 <= a < v.len() && (#[trigger] v[a]).0@ == k by {
            if k != v.last().0@ {
                let a = choose|a: int| 0 <= a < d.len() && (#[trigger] d[a]).0@ == k;
                assert(v[a] == d[a]);
            } else {
                assert(v[v.len() - 1].0@ == k);
            }
        }
        assert forall|k: Seq<char>| (exists|a: int| 0 <= a < v.len() && (#[trigger] v[a]).0@ == k) implies entries_map(v).contains_key(k) by {
            let a = choose|a: int| 0 <= a < v.len() && (#[trigger] v[a]).0@ == k;
            if a < v.len() - 1 {
                assert(d[a] == v[a]);
            }
        }
        assert forall|a: int| 0 <= a < v.len() implies entries_map(v)[(#[trigger] v[a]).0@] == v[a].1 as int by {
            if a < v.len() - 1 {
                assert(d[a] == v[a]);
                assert(v[a].0@ != v.last().0@);
            }
        }
    }
}

/// Adds `c` to the entry of `key`, making one if needed; `false`, with the
/// entries unchanged, when the sum does not fit in `i64`.
fn add_entry(v: &mut Vec<(String, i64)>, key: &String, c: i64) -> (ok: bool)
    requires
        keys_distinct(old(v)@),
    ensures
        keys_distinct(final(v)@),
        ok ==> entries_map(final(v)@) == entries_map(old(v)@).insert(key@, get0(entries_map(old(v)@), key@) + c),
        !ok ==> final(v)@ == old(v)@ && !(i64::MIN <= get0(entries_map(old(v)@), key@) + c <= i64::MAX),
{
    proof {
        lemma_entries(v@);
    }
    let mut k: usize = 0;
    while k < v.len()
        invariant
            k <= v.len(),
            v@ == old(v)@,
            keys_distinct(v@),
            forall|j: int| 0 <= j < k ==> v@[j].0@ != key@,
        decreases v.len() - k,
    {
        if v[k].0 == *key {
            let s = match v[k].1.checked_add(c) {
                Some(s) => s,
                None => {
                    proof {
                        lemma_entries(v@);
                        assert(v@[k as int].0@ == key@);
                    }
                    return false;
                },
            };
            let name = key.as_str().to_owned();
            let ghost before = v@;
            v.set(k, (name, s));
            proof {
                assert(keys_distinct(v@)) by {
                    assert forall|a: int, b: int| 0 <= a < b < v@.len() implies v@[a].0@ != v@[b].0@ by {
                        if a == k {
                            assert(before[k as int].0@ == key@);
                        }
                        if b == k {
                            assert(before[k as int].0@ == key@);
                        }
                    }
                }
                lemma_entries(v@);
                lemma_entries(before);
                assert(before[k as int].0@ == key@);
                assert(entries_map(before).contains_key(key@) && entries_map(before)[key@] == before[k as int].1 as int);
                assert forall|q: Seq<char>| #[trigger] entries_map(v@).contains_key(q) <==> entries_map(before).insert(key@, get0(entries_map(before), key@) + c).contains_key(q) by {
                    if exists|a: int| 0 <= a < before.len() && (#[trigger] before[a]).0@ == q {
                        let a = choose|a: int| 0 <= a < before.len() && (#[trigger] before[a]).0@ == q;
                        assert(v@[a].0@ == q);
                    }
                    if exists|a: int| 0 <= a < v@.len() && (#[trigger] v@[a]).0@ == q {
                        let a = choose|a: int| 0 <= a < v@.len() && (#[trigger] v@[a]).0@ == q;
                        assert(before[a].0@ == q);
                    }
                }
                assert forall|q: Seq<char>| #[trigger] entries_map(v@).contains_key(q) implies entries_map(v@)[q] == entries_map(before).insert(key@, get0(entries_map(before), key@) + c)[q] by {
                    let a = choose|a: int| 0 <= a < v@.len() && (#[trigger] v@[a]).0@ == q;
                    if a != k {
                        assert(before[a] == v@[a]);
                    }
                }
                assert(entries_map(v@) =~= entries_map(before).insert(key@, get0(entries_map(before), key@) + c));
            }
            return true;
        }
        k = k + 1;
    }
    let name = key.as_str().to_owned();
    let ghost before = v@;
    v.push((name, c));
    proof {
        assert(!entries_map(before).contains_key(key@));
        assert(v@.drop_last() == before);
        assert(keys_distinct(v@)) by {
            assert forall|a: int, b: int| 0 <= a < b < v@.len() implies v@[a].0@ != v@[b].0@ by {
                if b == v@.len() - 1 {
                    assert(v@[a] == before[a]);
                }
            }
        }
    }
    true
}

/// Merges the entries of `b` into `a`; `false` on a sum that does not fit.
fn add_all(a: &mut Vec<(String, i64)>, b: &Vec<(String, i64)>) -> (ok: bool)
    requires
        keys_distinct(old(a)@),
        keys_distinct(b@),
    ensures
        keys_distinct(final(a)@),
        ok ==> entries_map(final(a)@) == add_maps(entries_map(old(a)@), entries_map(b@)),
        !ok ==> !all_fit(add_maps(entries_map(old(a)@), entries_map(b@))),
{
    let ghost a0 = entries_map(a@);
    let mut i: usize = 0;
    proof {
        assert(entries_map(b@.take(0)) =~= Map::<Seq<char>, int>::empty());
        assert(add_maps(a0, Map::empty()) =~= a0);
    }
    while i < b.len()
        invariant
            i <= b.len(),
            a0 == entries_map(old(a)@),
            keys_distinct(a@),
            keys_distinct(b@),
            entries_map(a@) == add_maps(a0, entries_map(b@.take(i as int))),
        decreases b.len() - i,
    {
        let ghost before = entries_map(a@);
        if !add_entry(a, &b[i].0, b[i].1) {
            proof {
                let t = b@.take(i as int);
                let key = b@[i as int].0@;
                assert(keys_distinct(t));
                lemma_entries(t);
                lemma_entries(b@);
                assert(!entries_map(t).contains_key(key)) by {
                    if entries_map(t).contains_key(key) {
                        let q = choose|q: int| 0 <= q < t.len() && (#[trigger] t[q]).0@ == key;
                        assert(b@[q].0@ == key);
                    }
                }
                assert(get0(before, key) == get0(a0, key));
                assert(entries_map(b@)[key] == b@[i as int].1 as int);
                assert(add_maps(a0, entries_map(b@)).contains_key(key));
                assert(add_maps(a0, entries_map(b@))[key] == get0(a0, key) + b@[i as int].1 as int);
                assert(!(i64::MIN <= add_maps(a0, entries_map(b@))[key] <= i64::MAX));
            }
            return false;
        }
        proof {
            let t = b@.take(i as int);
            assert(b@.take(i + 1).drop_last() == t);
            assert(keys_distinct(t));
            lemma_entries(t);
            assert(!entries_map(t).contains_key(b@[i as int].0@)) by {
                if entries_map(t).contains_key(b@[i as int].0@) {
                    let q = choose|q: int| 0 <= q < t.len() && (#[trigger] t[q]).0@ == b@[i as int].0@;
                    assert(b@[q].0@ == b@[i as int].0@);
                }
            }
            assert(entries_map(a@) =~= add_maps(a0, entries_map(b@.take(i + 1))));
        }
        i = i + 1;
    }
    proof {
        assert(b@.take(b.len() as int) == b@);
    }
    true
}

/// Multiplies every entry by `c`; `false` on a product that does not fit.
fn scale_all(a: &mut Vec<(String, i64)>, c: i64) -> (ok: bool)
    requires
        keys_distinct(old(a)@),
    ensures
        keys_distinct(final(a)@),
        ok ==> entries_map(final(a)@) == scale_map(entries_map(old(a)@), c as int),
        !ok ==> !all_fit(scale_map(entries_map(old(a)@), c as int)),
{
    let ghost a0 = a@;
    proof {
        lemma_entries(a0);
    }
    let mut i: usize = 0;
    while i < a.len()
        invariant
            i <= a.len(),
            a0 == old(a)@,
            a.len() == a0.len(),
            keys_distinct(a0),
            forall|j: int| 0 <= j < a.len() ==> (#[trigger] a@[j]).0@ == a0[j].0@,
            forall|j: int| 0 <= j < i ==> (#[trigger] a@[j]).1 as int == a0[j].1 as int * c,
            forall|j: int| i <= j < a.len() ==> (#[trigger] a@[j]).1 == a0[j].1,
        decreases a.len() - i,
    {
        let s = match a[i].1.checked_mul(c) {
            Some(s) => s,
            None => {
                proof {
                    lemma_entries(a0);
                    assert(entries_map(a0)[a0[i as int].0@] == a0[i as int].1 as int);
                    assert(scale_map(entries_map(a0), c as int).contains_key(a0[i as int].0@));
                    assert(!(i64::MIN <= scale_map(entries_map(a0), c as int)[a0[i as int].0@] <= i64::MAX));
                }
                return false;
            },
        };
        let name = a[i].0.as_str().to_owned();
        a.set(i, (name, s));
        i = i + 1;
    }
    proof {
        assert(keys_distinct(a@));
        lemma_entries(a@);
        assert forall|q: Seq<char>| #[trigger] entries_map(a@).contains_key(q) <==> scale_map(entries_map(a0), c as int).contains_key(q) by {
            if exists|j: int| 0 <= j < a0.len() && (#[trigger] a0[j]).0@ == q {
                let j = choose|j: int| 0 <= j < a0.len() && (#[trigger] a0[j]).0@ == q;
                assert(a@[j].0@ == q);
            }
            if exists|j: int| 0 <= j < a@.len() && (#[trigger] a@[j]).0@ == q {
                let j = choose|j: int| 0 <= j < a@.len() && (#[trigger] a@[j]).0@ == q;
                assert(a0[j].0@ == q);
            }
        }
        assert forall|q: Seq<char>| #[trigger] entries_map(a@).contains_key(q) implies entries_map(a@)[q] == scale_map(entries_map(a0), c as int)[q] by {
            let j = choose|j: int| 0 <= j < a@.len() && (#[trigger] a@[j]).0@ == q;
            assert(a0[j].0@ == q);
        }
        assert(entries_map(a@) =~= scale_map(entries_map(a0), c as int));
    }
    true
}

} // verus!

verus! {

fn label_exec(nodes: &Vec<(String, Vec<usize>)>, j: usize) -> (r: Option<usize>)
    ensures
        r == label_at(nodes_view(nodes@), j),
{
    let ghost nv = nodes_view(nodes@);
    if j >= nodes.len() || nodes[j].1.len() != 0 {
        return None;
    }
    proof {
        assert(nv[j as int] == (nodes@[j as int].0@, nodes@[j as int].1@));
    }
    if nodes[j].0.as_str().unicode_len() == 0 {
        return None;
    }
    alphabet_to_number(nodes[j].0.as_str())
}

fn link_exec(nodes: &Vec<(String, Vec<usize>)>, j: usize) -> (r: Option<Link>)
    ensures
        r == link_at(nodes_view(nodes@), j),
{
    let ghost nv = nodes_view(nodes@);
    if j >= nodes.len() || nodes[j].1.len() != 2 {
        return None;
    }
    proof {
        assert(nv[j as int] == (nodes@[j as int].0@, nodes@[j as int].1@));
    }
    let op = &nodes[j].0;
    let edge = *op == String::from_str("--");
    let anti = *op == String::from_str("!-");
    if !edge && !anti {
        return None;
    }
    let u = label_exec(nodes, nodes[j].1[0]);
    let v = label_exec(nodes, nodes[j].1[1]);
    match (u, v) {
        (Some(u), Some(v)) => Some(Link { u, v, anti }),
        _ => None,
    }
}

fn motif_exec(nodes: &Vec<(String, Vec<usize>)>, j: usize) -> (r: Option<Vec<Link>>)
    ensures
        r matches Some(m) ==> motif_at(nodes_view(nodes@), j) == Some(m@),
        r is None ==> motif_at(nodes_view(nodes@), j) is None,
{
    let ghost nv = nodes_view(nodes@);
    if j >= nodes.len() {
        return None;
    }
    proof {
        assert(nv[j as int] == (nodes@[j as int].0@, nodes@[j as int].1@));
    }
    if nodes[j].0 != String::from_str("Match") {
        return None;
    }
    let kids = &nodes[j].1;
    let mut m: Vec<Link> = Vec::new();
    let mut k: usize = 0;
    while k < kids.len()
        invariant
            k <= kids.len(),
            nv == nodes_view(nodes@),
            j < nodes.len(),
            kids@ == nv[j as int].1,
            m@.len() == k,
            forall|q: int| 0 <= q < k ==> (#[trigger] link_at(nv, kids@[q])) == Some(m@[q]),
        decreases kids.len() - k,
    {
        match link_exec(nodes, kids[k]) {
            Some(l) => {
                m.push(l);
            },
            None => {
                return None;
            },
        }
        k = k + 1;
    }
    proof {
        assert(m@ =~= nv[j as int].1.map_values(|c: usize| link_at(nv, c).unwrap()));
    }
    Some(m)
}

fn key_exec(nodes: &Vec<(String, Vec<usize>)>, j: usize) -> (r: Option<String>)
    requires
        j < nodes.len(),
    ensures
        r matches Some(k) ==> key_at(nodes_view(nodes@), j) == Some(k@),
        r is None ==> key_at(nodes_view(nodes@), j) is None,
{
    let ghost nv = nodes_view(nodes@);
    proof {
        assert(nv[j as int] == (nodes@[j as int].0@, nodes@[j as int].1@));
    }
    let n = &nodes[j];
    if n.1.len() != 2 {
        return None;
    }
    if n.0 == String::from_str("Morph") {
        match motif_exec(nodes, n.1[1]) {
            Some(m) => Some(render_motif(&m)),
            None => None,
        }
    } else if n.0 == String::from_str("Const") && n.1[1] < nodes.len() && nodes[n.1[1]].1.len() == 0 {
        proof {
            assert(nv[n.1[1] as int] == (nodes@[n.1[1] as int].0@, nodes@[n.1[1] as int].1@));
        }
        Some(nodes[n.1[1]].0.as_str().to_owned())
    } else {
        None
    }
}

/// The totals of the expression rooted at node `i` (see `totals`), as entries
/// with distinct keys in order of first occurrence; `None` when a total does
/// not fit in `i64`.
pub fn summarize(nodes: &Vec<(String, Vec<usize>)>, i: usize, weighted: bool) -> (r: Option<Vec<(String, i64)>>)
    ensures
        r matches Some(v) ==> keys_distinct(v@) && entries_map(v@) == totals(nodes_view(nodes@), i, weighted),
        r is Some <==> totals_fit(nodes_view(nodes@), i, weighted),
    decreases i,
{
    let ghost nv = nodes_view(nodes@);
    let empty: Vec<(String, i64)> = Vec::new();
    proof {
        assert(entries_map(empty@) =~= Map::<Seq<char>, int>::empty());
    }
    if i >= nodes.len() {
        return Some(empty);
    }
    proof {
        assert(nv[i as int] == (nodes@[i as int].0@, nodes@[i as int].1@));
    }
    let n = &nodes[i];
    if n.1.len() == 2 && n.1[0] < i && n.1[1] < i && n.0 == String::from_str("Union") {
        proof {
            assert(totals_fit(nv, i, weighted) == (totals_fit(nv, n.1[0], weighted) && totals_fit(nv, n.1[1], weighted)
                && all_fit(add_maps(totals(nv, n.1[0], weighted), totals(nv, n.1[1], weighted)))));
        }
        let mut a = match summarize(nodes, n.1[0], weighted) {
            Some(a) => a,
            None => {
                return None;
            },
        };
        let b = match summarize(nodes, n.1[1], weighted) {
            Some(b) => b,
            None => {
                return None;
            },
        };
        if add_all(&mut a, &b) {
            proof {
                lemma_entries_fit(a@);
            }
            Some(a)
        } else {
            None
        }
    } else if n.1.len() == 2 && n.1[1] < i && n.0 == String::from_str("Count") {
        let mut inner = match summarize(nodes, n.1[1], weighted) {
            Some(v) => v,
            None => {
                return None;
            },
        };
        proof {
            assert(totals_fit(nv, i, weighted) == (totals_fit(nv, n.1[1], weighted) && (weighted && n.1[0] < nv.len() && nv[n.1[0] as int].1.len() == 0
                && (exists|c: i64| nv[n.1[0] as int].0 == int_text(c as int)) ==> {
                    let c = choose|c: i64| nv[n.1[0] as int].0 == int_text(c as int);
                    all_fit(scale_map(totals(nv, n.1[1], weighted), c as int))
                })));
        }
        if !weighted {
            return Some(inner);
        }
        let c0 = n.1[0];
        if c0 < nodes.len() && nodes[c0].1.len() == 0 {
            proof {
                assert(nv[c0 as int] == (nodes@[c0 as int].0@, nodes@[c0 as int].1@));
            }
            match text_to_int(nodes[c0].0.as_str()) {
                Some(c) => {
                    proof {
                        let w = choose|w: i64| nv[c0 as int].0 == int_text(w as int);
                        crate::text::lemma_int_text_injective(w as int, c as int);
                    }
                    if scale_all(&mut inner, c) {
                        proof {
                            lemma_entries_fit(inner@);
                        }
                        Some(inner)
                    } else {
                        None
                    }
                },
                None => Some(empty),
            }
        } else {
            Some(empty)
        }
    } else {
        match key_exec(nodes, i) {
            Some(k) => {
                let mut v: Vec<(String, i64)> = Vec::new();
                v.push((k, 1));
                proof {
                    assert(v@.drop_last() == empty@);
                }
                Some(v)
            },
            None => Some(empty),
        }
    }
}

pub open spec fn formula_text(v: Seq<(String, i64)>) -> Seq<char>
    decreases v.len(),
{
    let one = |e: (String, i64)| "(Count "@ + int_text(e.1 as int) + " "@ + e.0@ + ")"@;
    if v.len() == 0 {
        Seq::empty()
    } else if v.len() == 1 {
        one(v[0])
    } else {
        "(Union "@ + formula_text(v.drop_last()) + " "@ + one(v.last()) + ")"@
    }
}

/// The entries written back as an expression: `(Count c key)` for each, joined
/// left to right in unions.
pub fn pattern_formula_to_string(v: &Vec<(String, i64)>) -> (r: String)
    ensures
        r@ == formula_text(v@),
{
    let mut r = String::new();
    let mut i: usize = 0;
    while i < v.len()
        invariant
            i <= v.len(),
            r@ == formula_text(v@.take(i as int)),
        decreases v.len() - i,
    {
        let c = int_to_text(v[i].1);
        let one = String::from_str("(Count ").concat(c.as_str()).concat(" ").concat(v[i].0.as_str()).concat(")");
        proof {
            assert(v@.take(i + 1).drop_last() == v@.take(i as int));
            assert(v@.take(i + 1).last() == v@[i as int]);
        }
        if i == 0 {
            r = one;
            proof {
                assert(v@.take(1)[0] == v@[0]);
            }
        } else {
            r = String::from_str("(Union ").concat(r.as_str()).concat(" ").concat(one.as_str()).concat(")");
        }
        i = i + 1;
    }
    proof {
        assert(v@.take(v.len() as int) == v@);
    }
    r
}

} // verus!
