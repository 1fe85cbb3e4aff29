//! General morph expansion: `Morph(pi, pattern)` becomes a union of counts of
//! morph terms over other patterns on the same vertices, with coefficients from
//! the canonicalizer and counter collaborators.
//!
//! The library decides whether a term is expanded and how, turns the
//! collaborators' answers into terms, and inserts the expansion; talking to the
//! collaborators is left to the caller.

use vstd::prelude::*;
use vstd::string::*;
use crate::escape::{edges_of, escape_motif, escape_pairs, with_keys, Escape};
use crate::graph::{count_edges, edges_in, get_num_nodes, is_edge_induced, is_graph_complete, spanned};
use crate::insert::{insert_const, insert_count, insert_motif, insert_pair};
use crate::model::{const_tree, count_tree, morph_tree, motif_text, motif_tree, union_tree, Formula, Link};
use crate::store::{class_roots, store_wf, Store};
use crate::table::{morph_key, render_morph_key, render_motif, with_key, PatternTable};
use crate::term::{grows, holds, inserts, is_root, lemma_grows_trans, lemma_holds_grows, lemma_inserts_trans, lemma_joined_before, merge, same, Tree};

verus! {

pub open spec fn all_escapes() -> Seq<Escape> {
    seq![
        Escape::ThreeStar,
        Escape::Diamond,
        Escape::ThreePath,
        Escape::TailedTriangle,
        Escape::N1,
        Escape::N2,
        Escape::N3,
        Escape::N4,
        Escape::N5,
        Escape::N6,
        Escape::N7,
        Escape::N9,
        Escape::N10,
        Escape::N11,
        Escape::N14,
    ]
}

/// The motif has a shortcut of its own.
pub open spec fn has_escape(links: Seq<Link>) -> bool {
    exists|e: Escape| edges_of(escape_pairs(e)) == links
}

fn same_links(a: &Vec<Link>, b: &Vec<Link>) -> (r: bool)
    ensures
        r == (a@ == b@),
{
    if a.len() != b.len() {
        return false;
    }
    let mut i: usize = 0;
    while i < a.len()
        invariant
            i <= a.len(),
            a.len() == b.len(),
            forall|j: int| 0 <= j < i ==> a@[j] == b@[j],
        decreases a.len() - i,
    {
        if a[i] != b[i] {
            return false;
        }
        i = i + 1;
    }
    proof {
        assert(a@ =~= b@);
    }
    true
}

/// The shortcut whose motif is exactly `links`, if there is one.
pub fn escape_of(links: &Vec<Link>) -> (r: Option<Escape>)
    ensures
        r matches Some(e) ==> edges_of(escape_pairs(e)) == links@,
        r is None ==> !has_escape(links@),
{
    let all = vec![
        Escape::ThreeStar,
        Escape::Diamond,
        Escape::ThreePath,
        Escape::TailedTriangle,
        Escape::N1,
        Escape::N2,
        Escape::N3,
        Escape::N4,
        Escape::N5,
        Escape::N6,
        Escape::N7,
        Escape::N9,
        Escape::N10,
        Escape::N11,
        Escape::N14,
    ];
    proof {
        assert(all@ =~= all_escapes());
    }
    let mut i: usize = 0;
    while i < all.len()
        invariant
            i <= all.len(),
            all@ == all_escapes(),
            forall|j: int| 0 <= j < i ==> edges_of(escape_pairs(#[trigger] all@[j])) != links@,
        decreases all.len() - i,
    {
        let m = escape_motif(all[i]);
        if same_links(&m, links) {
            return Some(all[i]);
        }
        i = i + 1;
    }
    proof {
        assert forall|e: Escape| edges_of(escape_pairs(e)) != links@ by {
            let j: int = match e {
                Escape::ThreeStar => 0,
                Escape::Diamond => 1,
                Escape::ThreePath => 2,
                Escape::TailedTriangle => 3,
                Escape::N1 => 4,
                Escape::N2 => 5,
                Escape::N3 => 6,
                Escape::N4 => 7,
                Escape::N5 => 8,
                Escape::N6 => 9,
                Escape::N7 => 10,
                Escape::N9 => 11,
                Escape::N10 => 12,
                Escape::N11 => 13,
                Escape::N14 => 14,
            };
            assert(all@[j] == e);
        }
    }
    None
}

/// Every pair of the motif is an edge between vertices `1..=n`.
pub open spec fn complete(edges: nat, n: nat) -> bool {
    edges == n * (n - 1) / 2
}

/// How a morph term is to be expanded.
pub struct Plan {
    /// Subtraction decomposition (the pattern states no non-edge, or its
    /// fully-induced super-pattern is complete); embedding counts otherwise.
    pub subtraction: bool,
    /// The pattern states no non-edge.
    pub edge_induced: bool,
    /// The number of vertices the pattern spans.
    pub nodes: usize,
    /// The number of edges of its edge-induced closure.
    pub edges: u64,
}

pub open spec fn plan_of(links: Seq<Link>) -> Plan {
    let n = spanned(links);
    let ei = forall|i: int| 0 <= i < links.len() ==> !(#[trigger] links[i]).anti;
    Plan {
        subtraction: ei || complete(edges_in(links, true), n),
        edge_induced: ei,
        nodes: n as usize,
        edges: edges_in(links, false) as u64,
    }
}

/// The guard of general expansion of `Morph(Pi(tag), links)`, keyed by the
/// term's tag and motif (`morph_key`): a term is expanded at most once, never
/// when its motif has a shortcut, and never when its edge-induced closure is
/// complete. When it is to be expanded, the key is marked and the plan returned.
pub fn begin_expansion(table: &mut PatternTable, tag: &Vec<u32>, links: &Vec<Link>) -> (r: Option<Plan>)
    requires
        old(table).wf(),
        links.len() <= u64::MAX,
    ensures
        final(table).wf(),
        final(table).seen_keys() == old(table).seen_keys(),
        r is Some <==> !old(table).expanded_keys().contains(morph_key(tag@, links@)) && !has_escape(links@)
            && !complete(edges_in(links@, false), spanned(links@)),
        r is Some ==> final(table).expanded_keys() == with_key(old(table).expanded_keys(), morph_key(tag@, links@)),
        r is None ==> final(table).expanded_keys() == old(table).expanded_keys(),
        r matches Some(p) ==> p == plan_of(links@),
{
    let text = render_morph_key(tag, links);
    let key = text.as_str();
    if table.is_expanded(key) {
        return None;
    }
    if escape_of(links).is_some() {
        return None;
    }
    let n = get_num_nodes(links);
    let closure_edges = count_edges(links, false);
    if is_graph_complete(closure_edges, n as u64) {
        return None;
    }
    table.mark_expanded(key);
    let ei = is_edge_induced(links);
    let all_edges = count_edges(links, true);
    let sub = ei || is_graph_complete(all_edges, n as u64);
    Some(Plan { subtraction: sub, edge_induced: ei, nodes: n, edges: closure_edges })
}

/// What a representative found by the collaborators counts for: its signed
/// coefficient, and whether its motif states its non-edges. In a subtraction
/// of a pattern with non-edges, a representative with another number of edges
/// than the pattern's closure is subtracted, and one with the same number is
/// written without non-edges.
pub open spec fn term_sign(plan: Plan, rep_edges: u64, c: i32) -> (int, bool) {
    if plan.subtraction {
        if !plan.edge_induced && plan.edges != rep_edges {
            (-c, true)
        } else if !plan.edge_induced && plan.edges == rep_edges {
            (c as int, false)
        } else {
            (c as int, true)
        }
    } else {
        (c as int, true)
    }
}

pub fn signed_term(plan: &Plan, rep_edges: u64, c: i32) -> (r: (i64, bool))
    ensures
        (r.0 as int, r.1) == term_sign(*plan, rep_edges, c),
{
    if plan.subtraction {
        if !plan.edge_induced && plan.edges != rep_edges {
            (-(c as i64), true)
        } else if !plan.edge_induced && plan.edges == rep_edges {
            (c as i64, false)
        } else {
            (c as i64, true)
        }
    } else {
        (c as i64, true)
    }
}

/// The pairs `(i, j)`, `i < j <= n`, of row `i` up to column `j` (exclusive),
/// as links: an edge where `adj` has one, a non-edge elsewhere when `anti`.
pub open spec fn row_links(adj: Seq<Seq<u8>>, i: nat, j: nat, anti: bool) -> Seq<Link>
    decreases j,
{
    if j <= i + 1 {
        Seq::empty()
    } else {
        let before = row_links(adj, i, (j - 1) as nat, anti);
        let e = adj[i - 1][j - 2] == 1;
        if e || anti {
            before.push(Link { u: i as usize, v: (j - 1) as usize, anti: !e })
        } else {
            before
        }
    }
}

/// All rows `1..i` (exclusive) of an `n`-vertex graph, in order.
pub open spec fn rows_links(adj: Seq<Seq<u8>>, i: nat, n: nat, anti: bool) -> Seq<Link>
    decreases i,
{
    if i <= 1 {
        Seq::empty()
    } else {
        rows_links(adj, (i - 1) as nat, n, anti) + row_links(adj, (i - 1) as nat, n + 1, anti)
    }
}

/// The motif of a representative graph on vertices `1..=n`, pairs in
/// lexicographic order: edges where `adj` has them and, when `anti`, a
/// non-edge at every other pair.
pub open spec fn graph_links(adj: Seq<Seq<u8>>, anti: bool) -> Seq<Link> {
    rows_links(adj, adj.len() + 1, adj.len(), anti)
}

pub open spec fn square(adj: Seq<Seq<u8>>) -> bool {
    forall|i: int| 0 <= i < adj.len() ==> (#[trigger] adj[i]).len() == adj.len()
}

pub open spec fn rows_view(adj: Seq<Vec<u8>>) -> Seq<Seq<u8>> {
    adj.map_values(|r: Vec<u8>| r@)
}

/// The motif of a representative graph given by its adjacency matrix.
pub fn representative_motif(adj: &Vec<Vec<u8>>, anti: bool) -> (r: Vec<Link>)
    requires
        square(rows_view(adj@)),
        adj.len() < usize::MAX,
    ensures
        r@ == graph_links(rows_view(adj@), anti),
{
    let ghost a = rows_view(adj@);
    let n = adj.len();
    let mut r: Vec<Link> = Vec::new();
    let mut i: usize = 1;
    while i <= n
        invariant
            1 <= i <= n + 1,
            n == adj.len(),
            n < usize::MAX,
            a == rows_view(adj@),
            square(a),
            r@ == rows_links(a, i as nat, n as nat, anti),
        decreases n + 1 - i,
    {
        let ghost start = r@;
        let mut j: usize = i + 1;
        while j <= n
            invariant
                1 <= i <= n,
                i + 1 <= j <= n + 1,
                n == adj.len(),
                n < usize::MAX,
                a == rows_view(adj@),
                square(a),
                r@ == start + row_links(a, i as nat, j as nat, anti),
            decreases n + 1 - j,
        {
            let ghost before = r@;
            proof {
                assert(a[i - 1] == adj@[i - 1]@);
                assert(a[i - 1].len() == n);
            }
            let e = adj[i - 1][j - 1] == 1;
            if e || anti {
                r.push(Link { u: i, v: j, anti: !e });
                proof {
                    assert(row_links(a, i as nat, (j + 1) as nat, anti) == row_links(a, i as nat, j as nat, anti).push(Link { u: i, v: j, anti: !e }));
                    assert(r@ =~= start + row_links(a, i as nat, (j + 1) as nat, anti));
                }
            } else {
                proof {
                    assert(row_links(a, i as nat, (j + 1) as nat, anti) == row_links(a, i as nat, j as nat, anti));
                }
            }
            j = j + 1;
        }
        proof {
            assert(rows_links(a, (i + 1) as nat, n as nat, anti) == rows_links(a, i as nat, n as nat, anti) + row_links(a, i as nat, (n + 1) as nat, anti));
        }
        i = i + 1;
    }
    r
}

pub open spec fn terms_tree_view(v: Seq<(i64, Vec<Link>)>) -> Seq<(int, Seq<Link>)> {
    v.map_values(|t: (i64, Vec<Link>)| (t.0 as int, t.1@))
}

/// The union of the counts, each term joined on the left of those before it.
pub open spec fn expansion_tree(pi: Tree, first: (int, Seq<Link>), rest: Seq<(int, Seq<Link>)>) -> Tree
    decreases rest.len(),
{
    let one = |t: (int, Seq<Link>)| count_tree(t.0, morph_tree(pi, motif_tree(t.1)));
    if rest.len() == 0 {
        one(first)
    } else {
        union_tree(one(rest.last()), expansion_tree(pi, first, rest.drop_last()))
    }
}

pub open spec fn kept_terms(terms: Seq<(i64, Vec<Link>)>) -> Seq<(int, Seq<Link>)> {
    terms_tree_view(terms).filter(|t: (int, Seq<Link>)| t.0 != 0)
}

pub open spec fn kept_keys(kept: Seq<(int, Seq<Link>)>) -> Seq<Seq<char>> {
    kept.map_values(|t: (int, Seq<Link>)| motif_text(t.1))
}

/// Inserts the expansion of the morph term matched in class `matched` under the
/// tag class `pi`: the union of `Count(c, Morph(pi, m))` over the given terms
/// whose coefficient is not zero, each motif entered in the table, in order.
/// With no such term, the matched term is equated with `Count(1, Const(pi, F0))`.
/// Gives the class of the expansion and whether it was merged into `matched`
/// just now.
pub fn expand(g: &mut Store, table: &mut PatternTable, matched: usize, pi: usize, terms: &Vec<(i64, Vec<Link>)>) -> (r: (usize, bool))
    requires
        store_wf(*old(g)),
        old(table).wf(),
        class_roots(*old(g)).dom().contains(matched as nat),
        class_roots(*old(g)).dom().contains(pi as nat),
    ensures
        store_wf(*final(g)),
        grows(*old(g), *final(g)),
        final(table).wf(),
        final(table).expanded_keys() == old(table).expanded_keys(),
        final(table).seen_keys() == with_keys(old(table).seen_keys(), kept_keys(kept_terms(terms@))),
        same(*final(g), matched as nat, r.0 as nat),
        r.1 == !(class_roots(*old(g)).dom().contains(r.0 as nat) && same(*old(g), matched as nat, r.0 as nat)),
        kept_terms(terms@).len() > 0 ==> holds(*final(g), matched as nat,
            expansion_tree(Tree::Class(pi as nat), kept_terms(terms@)[0], kept_terms(terms@).drop_first())),
        kept_terms(terms@).len() == 0 ==> holds(*final(g), matched as nat,
            count_tree(1, const_tree(Tree::Class(pi as nat), Formula::F0))),
{
    let ghost g0 = *g;
    let ghost pit = Tree::Class(pi as nat);
    let ghost tv = terms_tree_view(terms@);
    let ghost seen0 = table.seen_keys();
    let mut acc: usize = 0;
    let mut any = false;
    let mut i: usize = 0;
    proof {
        assert(tv.take(0).filter(|t: (int, Seq<Link>)| t.0 != 0) =~= Seq::<(int, Seq<Link>)>::empty());
        assert(kept_keys(Seq::<(int, Seq<Link>)>::empty()) =~= Seq::<Seq<char>>::empty());
    }
    while i < terms.len()
        invariant
            i <= terms.len(),
            tv == terms_tree_view(terms@),
            store_wf(*g),
            inserts(g0, *g),
            table.wf(),
            table.expanded_keys() == old(table).expanded_keys(),
            table.seen_keys() == with_keys(seen0, kept_keys(tv.take(i as int).filter(|t: (int, Seq<Link>)| t.0 != 0))),
            holds(*g, pi as nat, pit),
            class_roots(*g).dom().contains(matched as nat),
            any ==> is_root(*g, acc as nat),
            any == (exists|k: int| 0 <= k < i && (#[trigger] terms@[k]).0 != 0),
            any ==> {
                let kept = tv.take(i as int).filter(|t: (int, Seq<Link>)| t.0 != 0);
                kept.len() > 0 && holds(*g, acc as nat, expansion_tree(pit, kept[0], kept.drop_first()))
            },
            !any ==> tv.take(i as int).filter(|t: (int, Seq<Link>)| t.0 != 0).len() == 0,
        decreases terms.len() - i,
    {
        let ghost gi = *g;
        let ghost kept0 = tv.take(i as int).filter(|t: (int, Seq<Link>)| t.0 != 0);
        proof {
            assert(tv.take(i + 1).drop_last() == tv.take(i as int));
            reveal(Seq::filter);
        }
        let c = terms[i].0;
        if c != 0 {
            let key = render_motif(&terms[i].1);
            table.record(key.as_str());
            proof {
                let kept1 = kept0.push(tv[i as int]);
                assert(tv.take(i + 1).filter(|t: (int, Seq<Link>)| t.0 != 0) == kept1);
                assert(kept_keys(kept1).drop_last() =~= kept_keys(kept0));
                assert(kept_keys(kept1).last() == motif_text(terms@[i as int].1@));
            }
            let m = insert_motif(g, &terms[i].1);
            let ghost g1 = *g;
            proof {
                lemma_holds_grows(gi, g1, pi as nat, pit);
            }
            let mo = insert_pair(g, "Morph", pi, m, Ghost(pit), Ghost(motif_tree(terms@[i as int].1@)));
            let ghost g2 = *g;
            let cn = insert_count(g, c, mo, Ghost(morph_tree(pit, motif_tree(terms@[i as int].1@))));
            let ghost g3 = *g;
            proof {
                lemma_inserts_trans(gi, g1, g2);
                lemma_inserts_trans(gi, g2, g3);
                lemma_inserts_trans(g0, gi, g3);
                lemma_holds_grows(gi, g3, pi as nat, pit);
                assert(tv.take(i + 1).filter(|t: (int, Seq<Link>)| t.0 != 0) == kept0.push(tv[i as int]));
            }
            if any {
                proof {
                    lemma_holds_grows(gi, g3, acc as nat, expansion_tree(pit, kept0[0], kept0.drop_first()));
                }
                acc = insert_pair(g, "Union", cn, acc,
                    Ghost(count_tree(c as int, morph_tree(pit, motif_tree(terms@[i as int].1@)))),
                    Ghost(expansion_tree(pit, kept0[0], kept0.drop_first())));
                proof {
                    lemma_inserts_trans(g0, g3, *g);
                    lemma_holds_grows(g3, *g, pi as nat, pit);
                    let kept1 = kept0.push(tv[i as int]);
                    assert(kept1[0] == kept0[0]);
                    assert(kept1.drop_first().drop_last() == kept0.drop_first());
                    assert(kept1.drop_first().last() == tv[i as int]);
                }
            } else {
                acc = cn;
                proof {
                    let kept1 = kept0.push(tv[i as int]);
                    assert(kept1 =~= seq![tv[i as int]]);
                    assert(kept1.drop_first() =~= Seq::<(int, Seq<Link>)>::empty());
                }
            }
            any = true;
        } else {
            proof {
                assert(tv.take(i + 1).filter(|t: (int, Seq<Link>)| t.0 != 0) == kept0);
            }
        }
        i = i + 1;
    }
    proof {
        assert(tv.take(terms.len() as int) == tv);
    }
    let ghost kept = tv.filter(|t: (int, Seq<Link>)| t.0 != 0);
    if !any {
        let ghost ga = *g;
        let f = insert_const(g, pi, Formula::F0, Ghost(pit));
        let ghost gb = *g;
        acc = insert_count(g, 1, f, Ghost(const_tree(pit, Formula::F0)));
        proof {
            lemma_inserts_trans(ga, gb, *g);
            lemma_inserts_trans(g0, ga, *g);
        }
    }
    let ghost t = if any { expansion_tree(pit, kept[0], kept.drop_first()) } else { count_tree(1, const_tree(pit, Formula::F0)) };
    let ghost gm = *g;
    let merged = merge(g, matched, acc);
    proof {
        lemma_joined_before(g0, gm, matched as nat, acc as nat);
        lemma_grows_trans(g0, gm, *g);
        lemma_holds_grows(gm, *g, acc as nat, t);
        crate::term::lemma_same_holds(*g, matched as nat, acc as nat, t);
    }
    (acc, merged)
}

} // verus!
