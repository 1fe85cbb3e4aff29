//! Escape shortcuts: for each motif of a fixed library, a known linear
//! combination of formula constants and counts of simpler motifs that replaces
//! its morph term outright.

use vstd::prelude::*;
use crate::insert::{insert_const, insert_count, insert_motif, insert_pair};
use crate::model::{const_tree, count_tree, formula_name, formula_text, morph_tree, motif_text, motif_tree, Formula, Link};
use crate::store::{class_roots, store_wf, Store};
use crate::table::{render_motif, with_key, PatternTable};
use crate::term::{add_node, grows, holds, lemma_grows_trans, lemma_holds_grows, lemma_inserts_trans, merge, same, Tree};

verus! {

/// The motifs that have a shortcut.
#[derive(Clone, Copy, Debug, PartialEq, Eq, Structural)]
pub enum Escape {
    ThreeStar,
    Diamond,
    ThreePath,
    TailedTriangle,
    N1,
    N2,
    N3,
    N4,
    N5,
    N6,
    N7,
    N9,
    N10,
    N11,
    N14,
}

/// Vertex pairs joined by edges (vertices count from 1).
pub open spec fn edges_of(pairs: Seq<(usize, usize)>) -> Seq<Link> {
    pairs.map_values(|p: (usize, usize)| Link { u: p.0, v: p.1, anti: false })
}

pub open spec fn triangle() -> Seq<(usize, usize)> {
    seq![(1, 2), (1, 3), (2, 3)]
}

pub open spec fn four_cycle() -> Seq<(usize, usize)> {
    seq![(1, 2), (1, 3), (2, 4), (3, 4)]
}

pub open spec fn tailed_triangle() -> Seq<(usize, usize)> {
    seq![(1, 4), (2, 3), (2, 4), (3, 4)]
}

pub open spec fn diamond() -> Seq<(usize, usize)> {
    seq![(1, 3), (1, 4), (2, 3), (2, 4), (3, 4)]
}

pub open spec fn four_clique() -> Seq<(usize, usize)> {
    seq![(1, 2), (1, 3), (1, 4), (2, 3), (2, 4), (3, 4)]
}

/// The motif each shortcut applies to.
pub open spec fn escape_pairs(e: Escape) -> Seq<(usize, usize)> {
    match e {
        Escape::ThreeStar => seq![(1, 4), (2, 4), (3, 4)],
        Escape::Diamond => diamond(),
        Escape::ThreePath => seq![(1, 3), (2, 4), (3, 4)],
        Escape::TailedTriangle => tailed_triangle(),
        Escape::N1 => seq![(1, 5), (2, 5), (3, 5), (4, 5)],
        Escape::N2 => seq![(1, 4), (2, 5), (3, 5), (4, 5)],
        Escape::N3 => seq![(1, 4), (2, 5), (3, 4), (3, 5)],
        Escape::N4 => seq![(1, 5), (2, 5), (3, 4), (3, 5), (4, 5)],
        Escape::N5 => seq![(1, 4), (2, 3), (2, 5), (3, 5), (4, 5)],
        Escape::N6 => seq![(1, 4), (2, 5), (3, 4), (3, 5), (4, 5)],
        Escape::N7 => seq![(1, 5), (2, 3), (2, 4), (3, 5), (4, 5)],
        Escape::N9 => seq![(1, 2), (1, 5), (2, 5), (3, 4), (3, 5), (4, 5)],
        Escape::N10 => seq![(1, 3), (2, 4), (2, 5), (3, 4), (3, 5), (4, 5)],
        Escape::N11 => seq![(1, 5), (2, 4), (2, 5), (3, 4), (3, 5), (4, 5)],
        Escape::N14 => seq![(1, 4), (1, 5), (2, 4), (2, 5), (3, 4), (3, 5), (4, 5)],
    }
}

/// The constant of each shortcut.
pub open spec fn escape_formula(e: Escape) -> Formula {
    match e {
        Escape::ThreeStar => Formula::Fa,
        Escape::Diamond => Formula::Fe,
        Escape::ThreePath => Formula::Fb,
        Escape::TailedTriangle => Formula::Fc,
        Escape::N1 => Formula::F1,
        Escape::N2 => Formula::F2,
        Escape::N3 => Formula::F3,
        Escape::N4 => Formula::F4,
        Escape::N5 => Formula::F5,
        Escape::N6 => Formula::F6,
        Escape::N7 => Formula::F7,
        Escape::N9 => Formula::F9,
        Escape::N10 => Formula::F10,
        Escape::N11 => Formula::F11,
        Escape::N14 => Formula::F14,
    }
}

/// The counts of simpler motifs that each shortcut adds to its constant.
pub open spec fn escape_terms(e: Escape) -> Seq<(int, Seq<(usize, usize)>)> {
    match e {
        Escape::ThreePath => seq![(-3, triangle())],
        Escape::N2 => seq![(-2, tailed_triangle())],
        Escape::N3 => seq![(-4, four_cycle()), (-2, tailed_triangle()), (-3, triangle())],
        Escape::N5 => seq![(-4, diamond())],
        Escape::N6 => seq![(-2, diamond())],
        Escape::N7 => seq![(-2, diamond())],
        Escape::N9 => seq![(-2, diamond())],
        Escape::N10 => seq![(-4, four_clique())],
        _ => Seq::empty(),
    }
}

/// Shortcuts whose one count comes before the constant in the union.
pub open spec fn count_first(e: Escape) -> bool {
    e == Escape::ThreePath || e == Escape::N6 || e == Escape::N7
}

/// Shortcuts whose constant is entered in the pattern table.
pub open spec fn records_formula(e: Escape) -> bool {
    !(e == Escape::ThreeStar || e == Escape::ThreePath || e == Escape::N1 || e == Escape::N2 || e == Escape::N3)
}

pub open spec fn const_term(pi: Tree, f: Formula) -> Tree {
    count_tree(1, const_tree(pi, f))
}

pub open spec fn motif_term(pi: Tree, t: (int, Seq<(usize, usize)>)) -> Tree {
    count_tree(t.0, morph_tree(pi, motif_tree(edges_of(t.1))))
}

/// `acc` followed by the given counts, in a left-nested union.
pub open spec fn chain(pi: Tree, acc: Tree, terms: Seq<(int, Seq<(usize, usize)>)>) -> Tree
    decreases terms.len(),
{
    if terms.len() == 0 {
        acc
    } else {
        crate::model::union_tree(chain(pi, acc, terms.drop_last()), motif_term(pi, terms.last()))
    }
}

/// The replacement of the morph term of `e`'s motif under the tag `pi`.
pub open spec fn escape_tree(e: Escape, pi: Tree) -> Tree {
    let c = const_term(pi, escape_formula(e));
    if count_first(e) {
        crate::model::union_tree(motif_term(pi, escape_terms(e)[0]), c)
    } else {
        chain(pi, c, escape_terms(e))
    }
}

/// The keys a shortcut enters in the pattern table, in order.
pub open spec fn escape_records(e: Escape) -> Seq<Seq<char>> {
    let f: Seq<Seq<char>> = if records_formula(e) {
        seq![formula_text(escape_formula(e))]
    } else {
        Seq::empty()
    };
    f + escape_terms(e).map_values(|t: (int, Seq<(usize, usize)>)| motif_text(edges_of(t.1)))
}

pub open spec fn with_keys(v: Seq<Seq<char>>, keys: Seq<Seq<char>>) -> Seq<Seq<char>>
    decreases keys.len(),
{
    if keys.len() == 0 {
        v
    } else {
        with_key(with_keys(v, keys.drop_last()), keys.last())
    }
}

/// The tag `(Pi i)` over the index class `prov`.
pub open spec fn single_pi(prov: nat) -> Tree {
    Tree::Node("Pi"@, seq![Tree::Class(prov)])
}

/// Edge links over the given vertex pairs.
pub fn links_of(pairs: &Vec<(usize, usize)>) -> (r: Vec<Link>)
    ensures
        r@ == edges_of(pairs@),
{
    let mut r: Vec<Link> = Vec::new();
    let mut i: usize = 0;
    while i < pairs.len()
        invariant
            i <= pairs.len(),
            r@ == edges_of(pairs@.take(i as int)),
        decreases pairs.len() - i,
    {
        let (u, v) = pairs[i];
        r.push(Link { u, v, anti: false });
        proof {
            assert(edges_of(pairs@.take(i + 1)) =~= edges_of(pairs@.take(i as int)).push(Link { u, v, anti: false }));
        }
        i = i + 1;
    }
    proof {
        assert(pairs@.take(pairs.len() as int) == pairs@);
    }
    r
}

/// The motif a shortcut applies to.
pub fn escape_motif(e: Escape) -> (r: Vec<Link>)
    ensures
        r@ == edges_of(escape_pairs(e)),
{
    let pairs = match e {
        Escape::ThreeStar => vec![(1, 4), (2, 4), (3, 4)],
        Escape::Diamond => vec![(1, 3), (1, 4), (2, 3), (2, 4), (3, 4)],
        Escape::ThreePath => vec![(1, 3), (2, 4), (3, 4)],
        Escape::TailedTriangle => vec![(1, 4), (2, 3), (2, 4), (3, 4)],
        Escape::N1 => vec![(1, 5), (2, 5), (3, 5), (4, 5)],
        Escape::N2 => vec![(1, 4), (2, 5), (3, 5), (4, 5)],
        Escape::N3 => vec![(1, 4), (2, 5), (3, 4), (3, 5)],
        Escape::N4 => vec![(1, 5), (2, 5), (3, 4), (3, 5), (4, 5)],
        Escape::N5 => vec![(1, 4), (2, 3), (2, 5), (3, 5), (4, 5)],
        Escape::N6 => vec![(1, 4), (2, 5), (3, 4), (3, 5), (4, 5)],
        Escape::N7 => vec![(1, 5), (2, 3), (2, 4), (3, 5), (4, 5)],
        Escape::N9 => vec![(1, 2), (1, 5), (2, 5), (3, 4), (3, 5), (4, 5)],
        Escape::N10 => vec![(1, 3), (2, 4), (2, 5), (3, 4), (3, 5), (4, 5)],
        Escape::N11 => vec![(1, 5), (2, 4), (2, 5), (3, 4), (3, 5), (4, 5)],
        Escape::N14 => vec![(1, 4), (1, 5), (2, 4), (2, 5), (3, 4), (3, 5), (4, 5)],
    };
    proof {
        assert(pairs@ =~= escape_pairs(e));
    }
    links_of(&pairs)
}

fn formula_of(e: Escape) -> (r: Formula)
    ensures
        r == escape_formula(e),
{
    match e {
        Escape::ThreeStar => Formula::Fa,
        Escape::Diamond => Formula::Fe,
        Escape::ThreePath => Formula::Fb,
        Escape::TailedTriangle => Formula::Fc,
        Escape::N1 => Formula::F1,
        Escape::N2 => Formula::F2,
        Escape::N3 => Formula::F3,
        Escape::N4 => Formula::F4,
        Escape::N5 => Formula::F5,
        Escape::N6 => Formula::F6,
        Escape::N7 => Formula::F7,
        Escape::N9 => Formula::F9,
        Escape::N10 => Formula::F10,
        Escape::N11 => Formula::F11,
        Escape::N14 => Formula::F14,
    }
}

pub open spec fn terms_view(v: Seq<(i64, Vec<(usize, usize)>)>) -> Seq<(int, Seq<(usize, usize)>)> {
    v.map_values(|t: (i64, Vec<(usize, usize)>)| (t.0 as int, t.1@))
}

fn terms_of(e: Escape) -> (r: Vec<(i64, Vec<(usize, usize)>)>)
    ensures
        terms_view(r@) == escape_terms(e),
{
    let t = vec![(1, 2), (1, 3), (2, 3)];
    let c4 = vec![(1, 2), (1, 3), (2, 4), (3, 4)];
    let tt = vec![(1, 4), (2, 3), (2, 4), (3, 4)];
    let d = vec![(1, 3), (1, 4), (2, 3), (2, 4), (3, 4)];
    let k4 = vec![(1, 2), (1, 3), (1, 4), (2, 3), (2, 4), (3, 4)];
    proof {
        assert(t@ =~= triangle());
        assert(c4@ =~= four_cycle());
        assert(tt@ =~= tailed_triangle());
        assert(d@ =~= diamond());
        assert(k4@ =~= four_clique());
    }
    let r = match e {
        Escape::ThreePath => vec![(-3, t)],
        Escape::N2 => vec![(-2, tt)],
        Escape::N3 => vec![(-4, c4), (-2, tt), (-3, t)],
        Escape::N5 => vec![(-4, d)],
        Escape::N6 => vec![(-2, d)],
        Escape::N7 => vec![(-2, d)],
        Escape::N9 => vec![(-2, d)],
        Escape::N10 => vec![(-4, k4)],
        _ => Vec::new(),
    };
    proof {
        assert(terms_view(r@) =~= escape_terms(e));
    }
    r
}

/// Replaces the morph term of `e`'s motif, matched in class `matched` under the
/// tag `(Pi i)` whose index class is `prov`, by its shortcut. Gives the class of
/// the replacement and whether it was merged into `matched` just now, and
/// enters the shortcut's keys in the table.
pub fn escape(g: &mut Store, table: &mut PatternTable, matched: usize, prov: usize, e: Escape) -> (r: (usize, bool))
    requires
        store_wf(*old(g)),
        old(table).wf(),
        class_roots(*old(g)).dom().contains(matched as nat),
        class_roots(*old(g)).dom().contains(prov as nat),
    ensures
        store_wf(*final(g)),
        grows(*old(g), *final(g)),
        same(*final(g), matched as nat, r.0 as nat),
        r.1 == !(class_roots(*old(g)).dom().contains(r.0 as nat) && same(*old(g), matched as nat, r.0 as nat)),
        holds(*final(g), matched as nat, escape_tree(e, single_pi(prov as nat))),
        final(table).wf(),
        final(table).seen_keys() == with_keys(old(table).seen_keys(), escape_records(e)),
        final(table).expanded_keys() == old(table).expanded_keys(),
{
    let ghost g0 = *g;
    let ghost pit = single_pi(prov as nat);
    let mut kids: Vec<usize> = Vec::new();
    kids.push(prov);
    let ghost kt = seq![Tree::Class(prov as nat)];
    let pi = add_node(g, "Pi", &kids, Ghost(kt));
    let f = formula_of(e);
    let ghost keys = escape_records(e);
    let ghost seen0 = table.seen_keys();
    let records = !(e == Escape::ThreeStar || e == Escape::ThreePath || e == Escape::N1 || e == Escape::N2 || e == Escape::N3);
    let mut done: usize = 0;
    if records {
        table.record(formula_name(f));
        done = 1;
        proof {
            assert(keys.take(1) =~= seq![formula_text(f)]);
            assert(keys.take(1).drop_last() =~= Seq::<Seq<char>>::empty());
            assert(with_keys(seen0, keys.take(1).drop_last()) == seen0);
            assert(keys.take(1).last() == formula_text(f));
        }
    } else {
        proof {
            assert(keys.take(0) =~= Seq::<Seq<char>>::empty());
        }
    }
    proof {
        assert(escape_terms(e).take(0) =~= Seq::<(int, Seq<(usize, usize)>)>::empty());
    }
    let ghost ga = *g;
    let c = insert_const(g, pi, f, Ghost(pit));
    let ghost gb = *g;
    let c1 = insert_count(g, 1, c, Ghost(const_tree(pit, f)));
    proof {
        lemma_inserts_trans(ga, gb, *g);
        lemma_holds_grows(ga, *g, pi as nat, pit);
        lemma_inserts_trans(g0, ga, *g);
    }
    let terms = terms_of(e);
    let ghost tv = terms_view(terms@);
    let ghost ct = const_term(pit, f);
    let first = e == Escape::ThreePath || e == Escape::N6 || e == Escape::N7;
    let mut acc = c1;
    let mut i: usize = 0;
    while i < terms.len()
        invariant
            i <= terms.len(),
            first == count_first(e),
            f == escape_formula(e),
            ct == const_term(pit, f),
            pit == single_pi(prov as nat),
            tv == terms_view(terms@),
            tv == escape_terms(e),
            keys == escape_records(e),
            done == (if records { 1usize } else { 0usize }) + i,
            keys.len() == done + tv.len() - i,
            keys.take(done as int) == (if records { seq![formula_text(f)] } else { Seq::<Seq<char>>::empty() }) + tv.take(i as int).map_values(|t: (int, Seq<(usize, usize)>)| motif_text(edges_of(t.1))),
            table.wf(),
            table.seen_keys() == with_keys(seen0, keys.take(done as int)),
            table.expanded_keys() == old(table).expanded_keys(),
            store_wf(*g),
            crate::term::inserts(g0, *g),
            crate::term::is_root(*g, acc as nat),
            holds(*g, pi as nat, pit),
            holds(*g, c1 as nat, ct),
            count_first(e) ==> tv.len() == 1,
            count_first(e) && i == 0 ==> acc == c1,
            count_first(e) && i > 0 ==> holds(*g, acc as nat, escape_tree(e, pit)),
            !count_first(e) ==> holds(*g, acc as nat, chain(pit, ct, tv.take(i as int))),
            class_roots(*g).dom().contains(matched as nat),
        decreases terms.len() - i,
    {
        let ghost gi = *g;
        let links = links_of(&terms[i].1);
        let key = render_motif(&links);
        table.record(key.as_str());
        proof {
            assert(keys.take(done + 1).drop_last() == keys.take(done as int));
            assert(keys.take(done + 1).last() == keys[done as int]);
            assert(tv.take(i + 1).drop_last() == tv.take(i as int));
            assert(keys[done as int] == motif_text(edges_of(tv[i as int].1)));
            assert(keys.take(done + 1) =~= (if records { seq![formula_text(f)] } else { Seq::<Seq<char>>::empty() }) + tv.take(i + 1).map_values(|t: (int, Seq<(usize, usize)>)| motif_text(edges_of(t.1))));
        }
        done = done + 1;
        let m = insert_motif(g, &links);
        let ghost g1 = *g;
        proof {
            lemma_holds_grows(gi, g1, pi as nat, pit);
        }
        let mo = insert_pair(g, "Morph", pi, m, Ghost(pit), Ghost(motif_tree(links@)));
        let ghost g2 = *g;
        let cm = insert_count(g, terms[i].0, mo, Ghost(morph_tree(pit, motif_tree(links@))));
        let ghost g3 = *g;
        proof {
            lemma_inserts_trans(gi, g1, g2);
            lemma_inserts_trans(gi, g2, g3);
            lemma_inserts_trans(g0, gi, g3);
            lemma_holds_grows(gi, g3, pi as nat, pit);
            lemma_holds_grows(gi, g3, c1 as nat, ct);
            lemma_holds_grows(gi, g3, acc as nat, chain(pit, ct, tv.take(i as int)));
            assert(motif_term(pit, tv[i as int]) == count_tree(terms[i as int].0 as int, morph_tree(pit, motif_tree(links@))));
        }
        if first {
            proof {
                assert(tv.len() == 1);
            }
        } else {
            acc = insert_pair(g, "Union", acc, cm, Ghost(chain(pit, ct, tv.take(i as int))), Ghost(motif_term(pit, tv[i as int])));
            proof {
                lemma_inserts_trans(g0, g3, *g);
                lemma_holds_grows(g3, *g, pi as nat, pit);
                lemma_holds_grows(g3, *g, c1 as nat, ct);
                assert(chain(pit, ct, tv.take(i + 1)) == crate::model::union_tree(chain(pit, ct, tv.take(i as int)), motif_term(pit, tv[i as int])));
            }
        }
        if first {
            let ghost g4 = *g;
            acc = insert_pair(g, "Union", cm, c1, Ghost(motif_term(pit, tv[i as int])), Ghost(ct));
            proof {
                assert(i == 0);
                assert(escape_tree(e, pit) == crate::model::union_tree(motif_term(pit, tv[0]), ct));
                lemma_inserts_trans(g0, g4, *g);
                lemma_holds_grows(g4, *g, pi as nat, pit);
                lemma_holds_grows(g4, *g, c1 as nat, ct);
            }
        }
        i = i + 1;
    }
    proof {
        assert(tv.take(tv.len() as int) == tv);
        assert(keys.take(done as int) == keys);
        if !count_first(e) {
            assert(holds(*g, acc as nat, chain(pit, ct, tv)));
        }
    }
    let ghost gm = *g;
    let merged = merge(g, matched, acc);
    proof {
        crate::term::lemma_joined_before(g0, gm, matched as nat, acc as nat);
        lemma_grows_trans(g0, gm, *g);
        lemma_holds_grows(gm, *g, acc as nat, escape_tree(e, pit));
        crate::term::lemma_same_holds(*g, matched as nat, acc as nat, escape_tree(e, pit));
    }
    (acc, merged)
}

} // verus!
