//! The text exchanged with the collaborators: graph files for the
//! canonicalizer (`p edge n m` then `e u v` lines), data-graph and pattern
//! files for the counter (`u v`, and `u v 1` for a non-edge), and the reading
//! of a representative the canonicalizer wrote back.

use vstd::prelude::*;
use vstd::string::*;
use crate::model::{motif_text, Link};
use crate::parse::{all_readable, parse_motif};
use crate::morph::{graph_links, representative_motif, rows_view, square};
use crate::table::texts;
use crate::text::{int_text, int_to_text};

verus! {

pub open spec fn pair_text(l: Link) -> Seq<char> {
    int_text(l.u as int) + " "@ + int_text(l.v as int)
}

/// A counter line: `u v` for an edge, `u v 1` for a non-edge.
pub open spec fn counter_line(l: Link) -> Seq<char> {
    if l.anti {
        pair_text(l) + " 1"@
    } else {
        pair_text(l)
    }
}

pub open spec fn header_text(n: nat, m: nat) -> Seq<char> {
    "p edge "@ + int_text(n as int) + " "@ + int_text(m as int)
}

/// The canonicalizer's request: the header, then one `e u v` line per edge in
/// lexicographic order.
pub open spec fn graph_file(adj: Seq<Seq<u8>>) -> Seq<Seq<char>> {
    let es = graph_links(adj, false);
    seq![header_text(adj.len(), es.len())] + es.map_values(|l: Link| "e "@ + pair_text(l))
}

fn pair_to_text(l: Link) -> (r: String)
    requires
        l.u <= i64::MAX,
        l.v <= i64::MAX,
    ensures
        r@ == pair_text(l),
{
    let a = int_to_text(l.u as i64);
    let b = int_to_text(l.v as i64);
    a.concat(" ").concat(b.as_str())
}

pub open spec fn small(links: Seq<Link>) -> bool {
    forall|k: int| 0 <= k < links.len() ==> (#[trigger] links[k]).u <= i64::MAX && links[k].v <= i64::MAX
}

proof fn lemma_rows_small(adj: Seq<Seq<u8>>, i: nat, n: nat, anti: bool)
    requires
        n < 0xffff_fffe,
        i <= n + 1,
    ensures
        small(crate::morph::rows_links(adj, i, n, anti)),
        crate::morph::rows_links(adj, i, n, anti).len() <= i * (n + 1),
    decreases i,
{
    if i > 1 {
        lemma_rows_small(adj, (i - 1) as nat, n, anti);
        lemma_row_small(adj, (i - 1) as nat, n + 1, anti);
        let a = crate::morph::rows_links(adj, (i - 1) as nat, n, anti);
        let b = crate::morph::row_links(adj, (i - 1) as nat, n + 1, anti);
        let c = crate::morph::rows_links(adj, i, n, anti);
        assert(c == a + b);
        assert forall|k: int| 0 <= k < c.len() implies (#[trigger] c[k]).u <= i64::MAX && c[k].v <= i64::MAX by {
            if k >= a.len() {
                assert(c[k] == b[k - a.len()]);
            } else {
                assert(c[k] == a[k]);
            }
        }
        assert((i - 1) * (n + 1) + (n + 1) == i * (n + 1)) by (nonlinear_arith);
    }
}

proof fn lemma_row_small(adj: Seq<Seq<u8>>, i: nat, j: nat, anti: bool)
    requires
        i < 0xffff_ffff,
        j <= 0xffff_ffff,
    ensures
        forall|k: int| 0 <= k < crate::morph::row_links(adj, i, j, anti).len()
            ==> (#[trigger] crate::morph::row_links(adj, i, j, anti)[k]).u == i
                && crate::morph::row_links(adj, i, j, anti)[k].v < j,
        crate::morph::row_links(adj, i, j, anti).len() <= j,
    decreases j,
{
    if j > i + 1 {
        lemma_row_small(adj, i, (j - 1) as nat, anti);
        let before = crate::morph::row_links(adj, i, (j - 1) as nat, anti);
        let now = crate::morph::row_links(adj, i, j, anti);
        assert forall|k: int| 0 <= k < now.len() implies (#[trigger] now[k]).u == i && now[k].v < j by {
            if k < before.len() {
                assert(now[k] == before[k]);
            }
        }
    }
}

fn lines_of(links: &Vec<Link>, prefix: &str) -> (r: Vec<String>)
    requires
        small(links@),
    ensures
        texts(r@) == links@.map_values(|l: Link| prefix@ + pair_text(l)),
{
    let mut r: Vec<String> = Vec::new();
    let mut i: usize = 0;
    while i < links.len()
        invariant
            i <= links.len(),
            small(links@),
            texts(r@) == links@.take(i as int).map_values(|l: Link| prefix@ + pair_text(l)),
        decreases links.len() - i,
    {
        let t = pair_to_text(links[i]);
        let line = prefix.to_owned().concat(t.as_str());
        let ghost before = r@;
        r.push(line);
        proof {
            assert(texts(r@) =~= texts(before).push(prefix@ + pair_text(links@[i as int])));
            assert(links@.take(i + 1) == links@.take(i as int).push(links@[i as int]));
            assert(links@.take(i + 1).map_values(|l: Link| prefix@ + pair_text(l)) =~= links@.take(i as int).map_values(|l: Link| prefix@ + pair_text(l)).push(prefix@ + pair_text(links@[i as int])));
        }
        i = i + 1;
    }
    proof {
        assert(links@.take(links.len() as int) == links@);
    }
    r
}

/// The canonicalizer's request for a graph given by its adjacency matrix.
pub fn graph_file_lines(adj: &Vec<Vec<u8>>) -> (r: Vec<String>)
    requires
        square(rows_view(adj@)),
        adj.len() <= 0xffff,
    ensures
        texts(r@) == graph_file(rows_view(adj@)),
{
    let es = representative_motif(adj, false);
    proof {
        lemma_rows_small(rows_view(adj@), (adj.len() + 1) as nat, adj.len() as nat, false);
    }
    proof {
        assert((adj.len() + 1) * (adj.len() + 1) <= 0x10000 * 0x10000) by (nonlinear_arith)
            requires adj.len() <= 0xffff;
        assert(rows_view(adj@).len() == adj.len());
    }
    let body = lines_of(&es, "e ");
    let n = int_to_text(adj.len() as i64);
    let m = int_to_text(es.len() as i64);
    let header = String::from_str("p edge ").concat(n.as_str()).concat(" ").concat(m.as_str());
    let mut r: Vec<String> = Vec::new();
    r.push(header);
    let mut i: usize = 0;
    while i < body.len()
        invariant
            i <= body.len(),
            texts(r@) == seq![header_text(adj.len() as nat, es@.len())] + texts(body@).take(i as int),
        decreases body.len() - i,
    {
        let ghost before = r@;
        let line = body[i].as_str().to_owned();
        r.push(line);
        proof {
            assert(texts(r@) =~= texts(before).push(body@[i as int]@));
            assert(texts(body@).take(i + 1) =~= texts(body@).take(i as int).push(body@[i as int]@));
        }
        i = i + 1;
    }
    proof {
        assert(texts(body@).take(body.len() as int) == texts(body@));
        assert(rows_view(adj@).len() == adj.len());
    }
    r
}

/// The counter's data-graph file for a representative: one `u v` line per edge.
pub fn data_graph_lines(adj: &Vec<Vec<u8>>) -> (r: Vec<String>)
    requires
        square(rows_view(adj@)),
        adj.len() <= 0xffff,
    ensures
        texts(r@) == graph_links(rows_view(adj@), false).map_values(|l: Link| ""@ + pair_text(l)),
{
    let es = representative_motif(adj, false);
    proof {
        lemma_rows_small(rows_view(adj@), (adj.len() + 1) as nat, adj.len() as nat, false);
    }
    lines_of(&es, "")
}

/// The counter's pattern file for a motif: `u v` for each edge and, when
/// `write_anti`, `u v 1` for each non-edge, in the motif's order.
pub fn pattern_lines(links: &Vec<Link>, write_anti: bool) -> (r: Vec<String>)
    requires
        small(links@),
    ensures
        texts(r@) == links@.filter(|l: Link| write_anti || !l.anti).map_values(|l: Link| counter_line(l)),
{
    let mut r: Vec<String> = Vec::new();
    let mut i: usize = 0;
    while i < links.len()
        invariant
            i <= links.len(),
            small(links@),
            texts(r@) == links@.take(i as int).filter(|l: Link| write_anti || !l.anti).map_values(|l: Link| counter_line(l)),
        decreases links.len() - i,
    {
        let l = links[i];
        proof {
            assert(links@.take(i + 1).drop_last() == links@.take(i as int));
            reveal(Seq::filter);
        }
        if write_anti || !l.anti {
            let t = pair_to_text(l);
            let line = if l.anti { t.concat(" 1") } else { t };
            let ghost before = r@;
            r.push(line);
            proof {
                assert(texts(r@) =~= texts(before).push(counter_line(l)));
                assert(links@.take(i + 1).filter(|l: Link| write_anti || !l.anti) == links@.take(i as int).filter(|l: Link| write_anti || !l.anti).push(l));
            }
        }
        i = i + 1;
    }
    proof {
        assert(links@.take(links.len() as int) == links@);
    }
    r
}

} // verus!

verus! {

pub open spec fn triangle_links() -> Seq<Link> {
    seq![Link { u: 1, v: 2, anti: false }, Link { u: 1, v: 3, anti: false }, Link { u: 2, v: 3, anti: false }]
}

pub open spec fn four_cycle_links() -> Seq<Link> {
    seq![Link { u: 1, v: 2, anti: false }, Link { u: 1, v: 4, anti: false }, Link { u: 2, v: 3, anti: false }, Link { u: 3, v: 4, anti: false }]
}

/// The motif whose cost stands for a key of the table: a formula key (one that
/// starts with `F`) is measured on the four-cycle for `F7` and on the triangle
/// otherwise; any other key is a motif's own text, read back.
pub fn cost_motif(key: &str) -> (r: Option<Vec<Link>>)
    ensures
        key@.len() > 0 && key@[0] == 'F' ==> (r matches Some(m)
            && m@ == (if key@ == "F7"@ { four_cycle_links() } else { triangle_links() })),
        !(key@.len() > 0 && key@[0] == 'F') ==> (r matches Some(m) ==> motif_text(m@) == key@)
            && ((exists|m: Seq<Link>| all_readable(m) && motif_text(m) == key@) ==> r is Some),
{
    if key.unicode_len() > 0 && key.get_char(0) == 'F' {
        if key.to_owned() == String::from_str("F7") {
            let m = vec![Link { u: 1, v: 2, anti: false }, Link { u: 1, v: 4, anti: false }, Link { u: 2, v: 3, anti: false }, Link { u: 3, v: 4, anti: false }];
            proof {
                assert(m@ =~= four_cycle_links());
            }
            Some(m)
        } else {
            let m = vec![Link { u: 1, v: 2, anti: false }, Link { u: 1, v: 3, anti: false }, Link { u: 2, v: 3, anti: false }];
            proof {
                assert(m@ =~= triangle_links());
            }
            Some(m)
        }
    } else {
        parse_motif(key)
    }
}

/// The vertices in order of first appearance.
pub open spec fn appearance(vs: Seq<usize>) -> Seq<usize>
    decreases vs.len(),
{
    if vs.len() == 0 {
        Seq::empty()
    } else {
        let a = appearance(vs.drop_last());
        if a.contains(vs.last()) {
            a
        } else {
            a.push(vs.last())
        }
    }
}

/// The links with the edges first, then the non-edges, each in the motif's order.
pub open spec fn edges_then_anti(links: Seq<Link>) -> Seq<Link> {
    links.filter(|l: Link| !l.anti) + links.filter(|l: Link| l.anti)
}

pub open spec fn ends(links: Seq<Link>) -> Seq<usize>
    decreases links.len(),
{
    if links.len() == 0 {
        Seq::empty()
    } else {
        ends(links.drop_last()).push(links.last().u).push(links.last().v)
    }
}

/// The link with its vertices renumbered by their place in `order` (from 1).
pub open spec fn renumbered(order: Seq<usize>, l: Link) -> Link {
    Link { u: (order.index_of(l.u) + 1) as usize, v: (order.index_of(l.v) + 1) as usize, anti: l.anti }
}

/// The cost pipeline's request for a motif: its edges then its non-edges, with
/// vertices renumbered from 1 in order of first appearance, as counter lines.
pub open spec fn cost_request(links: Seq<Link>) -> Seq<Seq<char>> {
    let ordered = edges_then_anti(links);
    let order = appearance(ends(ordered));
    ordered.map_values(|l: Link| counter_line(renumbered(order, l)))
}

proof fn lemma_appearance_distinct(vs: Seq<usize>)
    ensures
        appearance(vs).no_duplicates(),
        forall|x: usize| vs.contains(x) <==> appearance(vs).contains(x),
        appearance(vs).len() <= vs.len(),
    decreases vs.len(),
{
    if vs.len() > 0 {
        lemma_appearance_distinct(vs.drop_last());
        let d = vs.drop_last();
        let a = appearance(d);
        let l = vs.last();
        assert forall|x: usize| vs.contains(x) implies appearance(vs).contains(x) by {
            let k = choose|k: int| 0 <= k < vs.len() && vs[k] == x;
            if k < vs.len() - 1 {
                assert(d[k] == x);
                assert(d.contains(x));
                assert(a.contains(x));
                if !a.contains(l) {
                    let j = choose|j: int| 0 <= j < a.len() && a[j] == x;
                    assert(a.push(l)[j] == x);
                }
            } else {
                assert(x == l);
                if !a.contains(l) {
                    assert(a.push(l)[a.len() as int] == l);
                }
            }
        }
        assert forall|x: usize| appearance(vs).contains(x) implies vs.contains(x) by {
            if a.contains(x) {
                assert(d.contains(x));
                let k = choose|k: int| 0 <= k < d.len() && d[k] == x;
                assert(vs[k] == x);
            } else {
                if a.contains(l) {
                } else {
                    let j = choose|j: int| 0 <= j < a.push(l).len() && a.push(l)[j] == x;
                    if j < a.len() {
                        assert(a[j] == x);
                    } else {
                        assert(x == l);
                        assert(vs[vs.len() - 1] == x);
                    }
                }
            }
        }
    }
}

fn filtered(links: &Vec<Link>, anti: bool) -> (r: Vec<Link>)
    ensures
        anti ==> r@ == links@.filter(|l: Link| l.anti),
        !anti ==> r@ == links@.filter(|l: Link| !l.anti),
{
    let mut r: Vec<Link> = Vec::new();
    let mut i: usize = 0;
    while i < links.len()
        invariant
            i <= links.len(),
            anti ==> r@ == links@.take(i as int).filter(|l: Link| l.anti),
            !anti ==> r@ == links@.take(i as int).filter(|l: Link| !l.anti),
        decreases links.len() - i,
    {
        proof {
            assert(links@.take(i + 1).drop_last() == links@.take(i as int));
            reveal(Seq::filter);
        }
        if links[i].anti == anti {
            r.push(links[i]);
        }
        i = i + 1;
    }
    proof {
        assert(links@.take(links.len() as int) == links@);
    }
    r
}

fn position(order: &Vec<usize>, x: usize) -> (r: usize)
    requires
        order@.contains(x),
        order@.no_duplicates(),
    ensures
        r as int == order@.index_of(x),
        r < order.len(),
{
    let mut k: usize = 0;
    while k < order.len()
        invariant
            k <= order.len(),
            order@.contains(x),
            order@.no_duplicates(),
            forall|j: int| 0 <= j < k ==> order@[j] != x,
        decreases order.len() - k,
    {
        if order[k] == x {
            proof {
                let i = order@.index_of(x);
                assert(0 <= i < order.len() && order@[i] == x);
                assert(order@[i] == order@[k as int]);
                assert(i == k);
            }
            return k;
        }
        k = k + 1;
    }
    proof {
        let j = choose|j: int| 0 <= j < order.len() && order@[j] == x;
    }
    0
}

fn note(order: &mut Vec<usize>, x: usize)
    requires
        old(order)@.no_duplicates(),
    ensures
        final(order)@ == (if old(order)@.contains(x) { old(order)@ } else { old(order)@.push(x) }),
        final(order)@.no_duplicates(),
{
    let mut k: usize = 0;
    while k < order.len()
        invariant
            k <= order.len(),
            order@ == old(order)@,
            old(order)@.no_duplicates(),
            forall|j: int| 0 <= j < k ==> order@[j] != x,
        decreases order.len() - k,
    {
        if order[k] == x {
            proof {
                assert(old(order)@.contains(x));
            }
            return;
        }
        k = k + 1;
    }
    proof {
        assert(!old(order)@.contains(x));
    }
    order.push(x);
}

/// The cost pipeline's request for a motif.
pub fn cost_request_lines(links: &Vec<Link>) -> (r: Vec<String>)
    requires
        links.len() < 0x1000,
        small(links@),
    ensures
        texts(r@) == cost_request(links@),
{
    let e = filtered(links, false);
    let a = filtered(links, true);
    let mut ordered = e;
    let mut k: usize = 0;
    let ghost e0 = ordered@;
    while k < a.len()
        invariant
            k <= a.len(),
            ordered@ == e0 + a@.take(k as int),
        decreases a.len() - k,
    {
        ordered.push(a[k]);
        proof {
            assert(a@.take(k + 1) == a@.take(k as int).push(a@[k as int]));
        }
        k = k + 1;
    }
    proof {
        assert(a@.take(a.len() as int) == a@);
        assert(ordered@ == edges_then_anti(links@));
        broadcast use vstd::seq_lib::group_filter_ensures;
        assert(links@.filter(|l: Link| !l.anti).len() <= links@.len());
        assert(links@.filter(|l: Link| l.anti).len() <= links@.len());
    }
    let mut order: Vec<usize> = Vec::new();
    let mut i: usize = 0;
    while i < ordered.len()
        invariant
            i <= ordered.len(),
            order@ == appearance(ends(ordered@.take(i as int))),
            order@.no_duplicates(),
        decreases ordered.len() - i,
    {
        let ghost before = ends(ordered@.take(i as int));
        proof {
            assert(ordered@.take(i + 1).drop_last() == ordered@.take(i as int));
            assert(ends(ordered@.take(i + 1)).drop_last().drop_last() == before);
            assert(ends(ordered@.take(i + 1)).drop_last() == before.push(ordered@[i as int].u));
            assert(ends(ordered@.take(i + 1)) == before.push(ordered@[i as int].u).push(ordered@[i as int].v));
            assert(before.push(ordered@[i as int].u).drop_last() == before);
            assert(before.push(ordered@[i as int].u).push(ordered@[i as int].v).drop_last() == before.push(ordered@[i as int].u));
        }
        let ghost a0 = order@;
        note(&mut order, ordered[i].u);
        let ghost a1 = order@;
        note(&mut order, ordered[i].v);
        proof {
            let u = ordered@[i as int].u;
            let v = ordered@[i as int].v;
            assert(appearance(before.push(u)) == a1);
            assert(appearance(before.push(u).push(v)) == order@);
        }
        i = i + 1;
    }
    proof {
        assert(ordered@.take(ordered.len() as int) == ordered@);
        lemma_appearance_distinct(ends(ordered@));
    }
    let ghost ord = order@;
    let mut r: Vec<String> = Vec::new();
    let mut j: usize = 0;
    while j < ordered.len()
        invariant
            j <= ordered.len(),
            order@ == ord,
            ord == appearance(ends(ordered@)),
            ord.no_duplicates(),
            forall|x: usize| ends(ordered@).contains(x) <==> ord.contains(x),
            ordered@ == edges_then_anti(links@),
            ordered.len() <= 2 * links.len(),
            links.len() < 0x1000,
            ord.len() <= ends(ordered@).len(),
            texts(r@) == ordered@.take(j as int).map_values(|l: Link| counter_line(renumbered(ord, l))),
        decreases ordered.len() - j,
    {
        let l = ordered[j];
        proof {
            lemma_ends_contain(ordered@, j as int);
            lemma_ends_len(ordered@);
        }
        let pu = position(&order, l.u);
        let pv = position(&order, l.v);
        let t = pair_to_text(Link { u: pu + 1, v: pv + 1, anti: l.anti });
        let line = if l.anti { t.concat(" 1") } else { t };
        let ghost before = r@;
        r.push(line);
        proof {
            assert(renumbered(ord, l) == Link { u: (pu + 1) as usize, v: (pv + 1) as usize, anti: l.anti });
            assert(texts(r@) =~= texts(before).push(counter_line(renumbered(ord, l))));
            assert(ordered@.take(j + 1) == ordered@.take(j as int).push(l));
            assert(ordered@.take(j + 1).map_values(|l: Link| counter_line(renumbered(ord, l))) =~= ordered@.take(j as int).map_values(|l: Link| counter_line(renumbered(ord, l))).push(counter_line(renumbered(ord, l))));
        }
        j = j + 1;
    }
    proof {
        assert(ordered@.take(ordered.len() as int) == ordered@);
    }
    r
}

proof fn lemma_ends_contain(links: Seq<Link>, j: int)
    requires
        0 <= j < links.len(),
    ensures
        ends(links).contains(links[j].u),
        ends(links).contains(links[j].v),
    decreases links.len(),
{
    if j < links.len() - 1 {
        lemma_ends_contain(links.drop_last(), j);
        let e = ends(links.drop_last());
        let k = choose|k: int| 0 <= k < e.len() && e[k] == links[j].u;
        assert(ends(links)[k] == links[j].u);
        let k2 = choose|k: int| 0 <= k < e.len() && e[k] == links[j].v;
        assert(ends(links)[k2] == links[j].v);
    } else {
        let n = ends(links).len();
        assert(ends(links)[n - 1] == links[j].v);
        assert(ends(links)[n - 2] == links[j].u);
    }
}

proof fn lemma_ends_len(links: Seq<Link>)
    ensures
        ends(links).len() == 2 * links.len(),
    decreases links.len(),
{
    if links.len() > 0 {
        lemma_ends_len(links.drop_last());
    }
}

} // verus!
