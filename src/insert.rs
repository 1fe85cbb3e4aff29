//! Inserting terms into the store. Each builder returns a class that holds the
//! term, and keeps everything the store held before.

use vstd::prelude::*;
use crate::model::{
    const_tree, count_tree, formula_name, link_op, link_tree, morph_tree, motif_tree, num_tree, pi_tree, union_tree,
    Formula, Link,
};
use crate::store::{new_store, store_wf, Store};
use crate::term::{
    add_node, adds_only, again, found, holds, inserts, is_root, kids_found, leaf_root, lemma_found_inserts, lemma_inserts_trans,
    lemma_holds_grows, lemma_lookup_inserts, lemma_lookup_kids, leaf, lookup, node2, Tree,
};
use crate::store::{canonical, class_roots, hashcons, NodeKey};
use crate::text::{int_text, int_to_text, label, number_to_alphabet};

verus! {

/// A count expression as callers write it.
pub enum Expr {
    Count(i64, Box<Expr>),
    Union(Box<Expr>, Box<Expr>),
    Morph(Vec<u32>, Vec<Link>),
    Const(Vec<u32>, Formula),
}

pub open spec fn expr_tree(e: Expr) -> Tree
    decreases e,
{
    match e {
        Expr::Count(n, inner) => count_tree(n as int, expr_tree(*inner)),
        Expr::Union(a, b) => union_tree(expr_tree(*a), expr_tree(*b)),
        Expr::Morph(p, m) => morph_tree(pi_tree(p@), motif_tree(m@)),
        Expr::Const(p, f) => const_tree(pi_tree(p@), f),
    }
}

/// A leaf's class root survives inserts.
pub proof fn lemma_leaf_root_kept(g0: Store, g1: Store, op: Seq<char>)
    requires
        crate::store::store_wf(g0),
        inserts(g0, g1),
        hashcons(g0).dom().contains((op, Seq::<nat>::empty())),
    ensures
        hashcons(g1).dom().contains((op, Seq::<nat>::empty())),
        leaf_root(g1, op) == leaf_root(g0, op),
{
    let key = (op, Seq::<nat>::empty());
    assert(class_roots(g0).dom().contains(hashcons(g0)[key]));
    assert(crate::term::grows(g0, g1));
    assert(hashcons(g0).submap_of(hashcons(g1)));
    assert(hashcons(g0).dom().contains(key));
    assert(hashcons(g1).dom().contains(key));
    assert(hashcons(g1)[key] == hashcons(g0)[key]);
    assert(class_roots(g1)[hashcons(g0)[key]] == class_roots(g0)[hashcons(g0)[key]]);
}

pub proof fn lemma_all_grow(g0: Store, g1: Store, ids: Seq<usize>, ts: Seq<Tree>)
    requires
        crate::term::grows(g0, g1),
        ids.len() == ts.len(),
        forall|j: int| 0 <= j < ids.len() ==> holds(g0, #[trigger] ids[j] as nat, ts[j]),
    ensures
        forall|j: int| 0 <= j < ids.len() ==> holds(g1, #[trigger] ids[j] as nat, ts[j]),
{
    assert forall|j: int| 0 <= j < ids.len() implies holds(g1, #[trigger] ids[j] as nat, ts[j]) by {
        lemma_holds_grows(g0, g1, ids[j] as nat, ts[j]);
    }
}

pub(crate) fn insert_leaf(g: &mut Store, op: &str) -> (r: usize)
    requires
        store_wf(*old(g)),
    ensures
        store_wf(*final(g)),
        inserts(*old(g), *final(g)),
        is_root(*final(g), r as nat),
        holds(*final(g), r as nat, leaf(op@)),
        found(*final(g), leaf(op@), 1, r as nat),
        again(*old(g), *final(g), leaf(op@), 1, r as nat),
        adds_only(*old(g), *final(g), set![(op@, Seq::<nat>::empty())]),
        hashcons(*final(g)).dom().contains((op@, Seq::<nat>::empty())),
        leaf_root(*final(g), op@) == r,
{
    let children: Vec<usize> = Vec::new();
    let ghost kids = Seq::<Tree>::empty();
    let ghost g0 = *g;
    let r = add_node(g, op, &children, Ghost(kids));
    proof {
        assert(kids_found(g0, kids, children@, 0));
        assert(canonical(class_roots(g0), (op@, children@.map_values(|c: usize| c as nat))) =~= (op@, Seq::<nat>::empty()));
    }
    r
}

pub(crate) fn insert_pair(g: &mut Store, op: &str, a: usize, b: usize, Ghost(ta): Ghost<Tree>, Ghost(tb): Ghost<Tree>) -> (r: usize)
    requires
        store_wf(*old(g)),
        holds(*old(g), a as nat, ta),
        holds(*old(g), b as nat, tb),
    ensures
        store_wf(*final(g)),
        inserts(*old(g), *final(g)),
        is_root(*final(g), r as nat),
        holds(*final(g), r as nat, node2(op@, ta, tb)),
        forall|d: nat| #![trigger found(*old(g), ta, d, class_roots(*old(g))[a as nat])]
            found(*old(g), ta, d, class_roots(*old(g))[a as nat]) && found(*old(g), tb, d, class_roots(*old(g))[b as nat]) ==>
            found(*final(g), node2(op@, ta, tb), d + 1, r as nat) && again(*old(g), *final(g), node2(op@, ta, tb), d + 1, r as nat),
        adds_only(*old(g), *final(g), set![(op@, seq![class_roots(*old(g))[a as nat], class_roots(*old(g))[b as nat]])]),
{
    let mut children: Vec<usize> = Vec::new();
    children.push(a);
    children.push(b);
    let ghost kids = seq![ta, tb];
    let ghost g0 = *g;
    let r = add_node(g, op, &children, Ghost(kids));
    proof {
        assert forall|d: nat| #![trigger found(g0, ta, d, class_roots(g0)[a as nat])]
            found(g0, ta, d, class_roots(g0)[a as nat]) && found(g0, tb, d, class_roots(g0)[b as nat]) implies
            found(*g, node2(op@, ta, tb), d + 1, r as nat) && again(g0, *g, node2(op@, ta, tb), d + 1, r as nat) by {
            assert(kids_found(g0, kids, children@, d));
        }
        assert(canonical(class_roots(g0), (op@, children@.map_values(|c: usize| c as nat)))
            =~= (op@, seq![class_roots(g0)[a as nat], class_roots(g0)[b as nat]]));
    }
    r
}

/// Inserts the integer leaf `n`.
pub fn insert_num(g: &mut Store, n: i64) -> (r: usize)
    requires
        store_wf(*old(g)),
    ensures
        store_wf(*final(g)),
        inserts(*old(g), *final(g)),
        is_root(*final(g), r as nat),
        holds(*final(g), r as nat, num_tree(n as int)),
        found(*final(g), num_tree(n as int), 1, r as nat),
        again(*old(g), *final(g), num_tree(n as int), 1, r as nat),
        adds_only(*old(g), *final(g), set![(int_text(n as int), Seq::<nat>::empty())]),
        hashcons(*final(g)).dom().contains((int_text(n as int), Seq::<nat>::empty())),
        leaf_root(*final(g), int_text(n as int)) == r,
{
    let t = int_to_text(n);
    insert_leaf(g, t.as_str())
}

fn insert_link(g: &mut Store, l: Link) -> (r: usize)
    requires
        store_wf(*old(g)),
    ensures
        store_wf(*final(g)),
        inserts(*old(g), *final(g)),
        is_root(*final(g), r as nat),
        holds(*final(g), r as nat, link_tree(l)),
        found(*final(g), link_tree(l), 2, r as nat),
        again(*old(g), *final(g), link_tree(l), 2, r as nat),
{
    let ghost g0 = *g;
    let ghost lu = leaf(label(l.u as nat));
    let ghost lv = leaf(label(l.v as nat));
    let su = number_to_alphabet(l.u);
    let a = insert_leaf(g, su.as_str());
    let ghost g1 = *g;
    let sv = number_to_alphabet(l.v);
    let b = insert_leaf(g, sv.as_str());
    let ghost g2 = *g;
    proof {
        lemma_holds_grows(g1, *g, a as nat, lu);
        lemma_found_inserts(g1, g2, lu, 1, a as nat);
    }
    let op = if l.anti { "!-" } else { "--" };
    let r = insert_pair(g, op, a, b, Ghost(lu), Ghost(lv));
    proof {
        lemma_inserts_trans(g0, g1, g2);
        lemma_inserts_trans(g0, g2, *g);
        assert(found(g2, lu, 1, class_roots(g2)[a as nat]));
        assert(found(g2, lv, 1, class_roots(g2)[b as nat]));
        assert forall|f: nat| f >= 2 && (#[trigger] lookup(g0, link_tree(l), f)) is Some implies
            r as nat == lookup(g0, link_tree(l), f).unwrap() && hashcons(*g) == hashcons(g0) by {
            let f1 = (f - 1) as nat;
            lemma_lookup_kids(g0, link_op(l), seq![lu, lv], f1);
            assert(seq![lu, lv][0] == lu && seq![lu, lv][1] == lv);
            assert(lookup(g0, lu, f1) is Some);
            lemma_lookup_inserts(g0, g1, lv, f1);
            lemma_lookup_inserts(g0, g2, link_tree(l), f);
        }
    }
    r
}

/// Inserts the `Match` term of a motif, its pairs in the order given.
pub fn insert_motif(g: &mut Store, links: &Vec<Link>) -> (r: usize)
    requires
        store_wf(*old(g)),
    ensures
        store_wf(*final(g)),
        inserts(*old(g), *final(g)),
        is_root(*final(g), r as nat),
        holds(*final(g), r as nat, motif_tree(links@)),
        found(*final(g), motif_tree(links@), 3, r as nat),
        again(*old(g), *final(g), motif_tree(links@), 3, r as nat),
{
    let ghost g0 = *g;
    let ghost ts = links@.map_values(|l: Link| link_tree(l));
    let ghost present = exists|f: nat| f >= 3 && (#[trigger] lookup(g0, motif_tree(links@), f)) is Some;
    let ghost fp: nat = if present { choose|f: nat| f >= 3 && (#[trigger] lookup(g0, motif_tree(links@), f)) is Some } else { 3 };
    proof {
        if present {
            lemma_lookup_kids(g0, "Match"@, ts, (fp - 1) as nat);
        }
    }
    let mut ids: Vec<usize> = Vec::new();
    let mut i: usize = 0;
    while i < links.len()
        invariant
            i <= links.len(),
            ids.len() == i,
            store_wf(*g),
            store_wf(g0),
            inserts(g0, *g),
            ts == links@.map_values(|l: Link| link_tree(l)),
            forall|j: int| 0 <= j < i ==> holds(*g, #[trigger] ids[j] as nat, ts[j]),
            forall|j: int| 0 <= j < i ==> found(*g, ts[j], 2, class_roots(*g)[#[trigger] ids@[j] as nat]),
            fp >= 3,
            present ==> hashcons(*g) == hashcons(g0),
            present ==> forall|j: int| 0 <= j < ts.len() ==> (#[trigger] lookup(g0, ts[j], (fp - 1) as nat)) is Some,
        decreases links.len() - i,
    {
        let ghost gp = *g;
        let id = insert_link(g, links[i]);
        proof {
            lemma_all_grow(gp, *g, ids@, ts.take(i as int));
            assert(ts[i as int] == link_tree(links@[i as int]));
            assert forall|j: int| 0 <= j < i implies found(*g, ts[j], 2, class_roots(*g)[#[trigger] ids@[j] as nat]) by {
                lemma_found_inserts(gp, *g, ts[j], 2, class_roots(gp)[ids@[j] as nat]);
                assert(class_roots(gp).dom().contains(ids@[j] as nat));
            }
            if present {
                assert(lookup(g0, ts[i as int], (fp - 1) as nat) is Some);
                lemma_lookup_inserts(g0, gp, ts[i as int], (fp - 1) as nat);
            }
        }
        ids.push(id);
        i = i + 1;
        proof {
            lemma_inserts_trans(g0, gp, *g);
        }
    }
    let ghost g1 = *g;
    proof {
        assert(kids_found(g1, ts, ids@, 2));
    }
    let r = add_node(g, "Match", &ids, Ghost(ts));
    proof {
        lemma_inserts_trans(g0, g1, *g);
        assert forall|f: nat| f >= 3 && (#[trigger] lookup(g0, motif_tree(links@), f)) is Some implies
            r as nat == lookup(g0, motif_tree(links@), f).unwrap() && hashcons(*g) == hashcons(g0) by {
            lemma_lookup_inserts(g0, g1, motif_tree(links@), f);
        }
    }
    r
}

/// Inserts the provenance tag `(Pi i ...)` with the indices in the order given.
pub fn insert_pi(g: &mut Store, p: &Vec<u32>) -> (r: usize)
    requires
        store_wf(*old(g)),
    ensures
        store_wf(*final(g)),
        inserts(*old(g), *final(g)),
        is_root(*final(g), r as nat),
        holds(*final(g), r as nat, pi_tree(p@)),
        found(*final(g), pi_tree(p@), 2, r as nat),
        again(*old(g), *final(g), pi_tree(p@), 2, r as nat),
{
    let ghost g0 = *g;
    let ghost ts = p@.map_values(|i: u32| num_tree(i as int));
    let ghost present = exists|f: nat| f >= 2 && (#[trigger] lookup(g0, pi_tree(p@), f)) is Some;
    let ghost fp: nat = if present { choose|f: nat| f >= 2 && (#[trigger] lookup(g0, pi_tree(p@), f)) is Some } else { 2 };
    proof {
        if present {
            lemma_lookup_kids(g0, "Pi"@, ts, (fp - 1) as nat);
        }
    }
    let mut ids: Vec<usize> = Vec::new();
    let mut i: usize = 0;
    while i < p.len()
        invariant
            i <= p.len(),
            ids.len() == i,
            store_wf(*g),
            store_wf(g0),
            inserts(g0, *g),
            ts == p@.map_values(|i: u32| num_tree(i as int)),
            forall|j: int| 0 <= j < i ==> holds(*g, #[trigger] ids[j] as nat, ts[j]),
            forall|j: int| 0 <= j < i ==> found(*g, ts[j], 1, class_roots(*g)[#[trigger] ids@[j] as nat]),
            fp >= 2,
            present ==> hashcons(*g) == hashcons(g0),
            present ==> forall|j: int| 0 <= j < ts.len() ==> (#[trigger] lookup(g0, ts[j], (fp - 1) as nat)) is Some,
        decreases p.len() - i,
    {
        let ghost gp = *g;
        let id = insert_num(g, p[i] as i64);
        proof {
            lemma_all_grow(gp, *g, ids@, ts.take(i as int));
            assert(ts[i as int] == num_tree(p@[i as int] as int));
            assert forall|j: int| 0 <= j < i implies found(*g, ts[j], 1, class_roots(*g)[#[trigger] ids@[j] as nat]) by {
                lemma_found_inserts(gp, *g, ts[j], 1, class_roots(gp)[ids@[j] as nat]);
                assert(class_roots(gp).dom().contains(ids@[j] as nat));
            }
            if present {
                assert(lookup(g0, ts[i as int], (fp - 1) as nat) is Some);
                lemma_lookup_inserts(g0, gp, ts[i as int], (fp - 1) as nat);
            }
        }
        ids.push(id);
        i = i + 1;
        proof {
            lemma_inserts_trans(g0, gp, *g);
        }
    }
    let ghost g1 = *g;
    proof {
        assert(kids_found(g1, ts, ids@, 1));
    }
    let r = add_node(g, "Pi", &ids, Ghost(ts));
    proof {
        lemma_inserts_trans(g0, g1, *g);
        assert forall|f: nat| f >= 2 && (#[trigger] lookup(g0, pi_tree(p@), f)) is Some implies
            r as nat == lookup(g0, pi_tree(p@), f).unwrap() && hashcons(*g) == hashcons(g0) by {
            lemma_lookup_inserts(g0, g1, pi_tree(p@), f);
        }
    }
    r
}

pub(crate) fn insert_count(g: &mut Store, n: i64, e: usize, Ghost(t): Ghost<Tree>) -> (r: usize)
    requires
        store_wf(*old(g)),
        holds(*old(g), e as nat, t),
    ensures
        store_wf(*final(g)),
        inserts(*old(g), *final(g)),
        is_root(*final(g), r as nat),
        holds(*final(g), r as nat, count_tree(n as int, t)),
        forall|d: nat| #![trigger found(*old(g), t, d, class_roots(*old(g))[e as nat])]
            d >= 1 && found(*old(g), t, d, class_roots(*old(g))[e as nat]) ==>
            found(*final(g), count_tree(n as int, t), d + 1, r as nat)
            && again(*old(g), *final(g), count_tree(n as int, t), d + 1, r as nat),
        adds_only(*old(g), *final(g), set![(int_text(n as int), Seq::<nat>::empty()),
            ("Count"@, seq![leaf_root(*final(g), int_text(n as int)), class_roots(*old(g))[e as nat]])]),
        holds(*final(g), leaf_root(*final(g), int_text(n as int)), num_tree(n as int)),
{
    let ghost g0 = *g;
    let k = insert_num(g, n);
    proof {
        lemma_holds_grows(g0, *g, e as nat, t);
    }
    let ghost g1 = *g;
    let r = insert_pair(g, "Count", k, e, Ghost(num_tree(n as int)), Ghost(t));
    proof {
        lemma_inserts_trans(g0, g1, *g);
        lemma_leaf_root_kept(g1, *g, int_text(n as int));
        assert(class_roots(g1)[e as nat] == class_roots(g0)[e as nat]) by {
            crate::term::lemma_holds_known(g0, e as nat, t);
        }
        lemma_holds_grows(g1, *g, k as nat, num_tree(n as int));
        assert forall|d: nat| #![trigger found(g0, t, d, class_roots(g0)[e as nat])]
            d >= 1 && found(g0, t, d, class_roots(g0)[e as nat]) implies
            found(*g, count_tree(n as int, t), d + 1, r as nat) && again(g0, *g, count_tree(n as int, t), d + 1, r as nat) by {
            lemma_found_inserts(g0, g1, t, d, class_roots(g0)[e as nat]);
            assert(class_roots(g0).dom().contains(e as nat));
            assert(found(g1, num_tree(n as int), d, class_roots(g1)[k as nat]));
            assert(found(g1, t, d, class_roots(g1)[e as nat]));
            assert forall|f: nat| f >= d + 1 && (#[trigger] lookup(g0, count_tree(n as int, t), f)) is Some implies
                r as nat == lookup(g0, count_tree(n as int, t), f).unwrap() && hashcons(*g) == hashcons(g0) by {
                let f1 = (f - 1) as nat;
                lemma_lookup_kids(g0, "Count"@, seq![num_tree(n as int), t], f1);
                assert(seq![num_tree(n as int), t][0] == num_tree(n as int));
                assert(lookup(g0, num_tree(n as int), f1) is Some);
                lemma_lookup_inserts(g0, g1, count_tree(n as int, t), f);
            }
        }
    }
    r
}

pub(crate) fn insert_const(g: &mut Store, pi: usize, f: Formula, Ghost(tp): Ghost<Tree>) -> (r: usize)
    requires
        store_wf(*old(g)),
        holds(*old(g), pi as nat, tp),
    ensures
        store_wf(*final(g)),
        inserts(*old(g), *final(g)),
        is_root(*final(g), r as nat),
        holds(*final(g), r as nat, const_tree(tp, f)),
        forall|d: nat| #![trigger found(*old(g), tp, d, class_roots(*old(g))[pi as nat])]
            d >= 1 && found(*old(g), tp, d, class_roots(*old(g))[pi as nat]) ==>
            found(*final(g), const_tree(tp, f), d + 1, r as nat)
            && again(*old(g), *final(g), const_tree(tp, f), d + 1, r as nat),
        adds_only(*old(g), *final(g), set![(crate::model::formula_text(f), Seq::<nat>::empty()),
            ("Const"@, seq![class_roots(*old(g))[pi as nat], leaf_root(*final(g), crate::model::formula_text(f))])]),
{
    let ghost g0 = *g;
    let ghost fl = leaf(crate::model::formula_text(f));
    let k = insert_leaf(g, formula_name(f));
    proof {
        lemma_holds_grows(g0, *g, pi as nat, tp);
    }
    let ghost g1 = *g;
    let r = insert_pair(g, "Const", pi, k, Ghost(tp), Ghost(fl));
    proof {
        lemma_inserts_trans(g0, g1, *g);
        lemma_leaf_root_kept(g1, *g, crate::model::formula_text(f));
        assert(class_roots(g1)[pi as nat] == class_roots(g0)[pi as nat]) by {
            crate::term::lemma_holds_known(g0, pi as nat, tp);
        }
        assert forall|d: nat| #![trigger found(g0, tp, d, class_roots(g0)[pi as nat])]
            d >= 1 && found(g0, tp, d, class_roots(g0)[pi as nat]) implies
            found(*g, const_tree(tp, f), d + 1, r as nat) && again(g0, *g, const_tree(tp, f), d + 1, r as nat) by {
            lemma_found_inserts(g0, g1, tp, d, class_roots(g0)[pi as nat]);
            assert(class_roots(g0).dom().contains(pi as nat));
            assert(found(g1, fl, d, class_roots(g1)[k as nat]));
            assert(found(g1, tp, d, class_roots(g1)[pi as nat]));
            assert forall|q: nat| q >= d + 1 && (#[trigger] lookup(g0, const_tree(tp, f), q)) is Some implies
                r as nat == lookup(g0, const_tree(tp, f), q).unwrap() && hashcons(*g) == hashcons(g0) by {
                let q1 = (q - 1) as nat;
                lemma_lookup_kids(g0, "Const"@, seq![tp, fl], q1);
                assert(seq![tp, fl][1] == fl);
                assert(lookup(g0, fl, q1) is Some);
                lemma_lookup_inserts(g0, g1, const_tree(tp, f), q);
            }
        }
    }
    r
}

/// The fuel that looking up the tree of `e` needs.
pub open spec fn expr_depth(e: Expr) -> nat
    decreases e,
{
    match e {
        Expr::Count(_, inner) => expr_depth(*inner) + 1,
        Expr::Union(a, b) => {
            let da = expr_depth(*a);
            let db = expr_depth(*b);
            (if da >= db { da } else { db }) + 1
        },
        Expr::Morph(_, _) => 4,
        Expr::Const(_, _) => 3,
    }
}

proof fn lemma_expr_depth(e: Expr)
    ensures
        expr_depth(e) >= 3,
    decreases e,
{
    match e {
        Expr::Count(_, inner) => lemma_expr_depth(*inner),
        Expr::Union(a, b) => {
            lemma_expr_depth(*a);
            lemma_expr_depth(*b);
        },
        _ => {},
    }
}

/// Inserting a node over two terms, the first inserted from `g0` to `g1`, the
/// second from `g1` to `g2`, the node from `g2` to `g3`: if `g0` held the whole
/// term, nothing was added.
proof fn lemma_pair_again(
    g0: Store, g1: Store, g2: Store, g3: Store, op: Seq<char>, ta: Tree, tb: Tree,
    da: nat, db: nat, m: nat, a: nat, b: nat, r: nat,
)
    requires
        store_wf(g0),
        store_wf(g1),
        inserts(g0, g1),
        inserts(g1, g2),
        m >= da,
        m >= db,
        again(g0, g1, ta, da, a),
        again(g1, g2, tb, db, b),
        again(g2, g3, node2(op, ta, tb), m + 1, r),
    ensures
        again(g0, g3, node2(op, ta, tb), m + 1, r),
{
    assert forall|f: nat| f >= m + 1 && (#[trigger] lookup(g0, node2(op, ta, tb), f)) is Some implies
        r == lookup(g0, node2(op, ta, tb), f).unwrap() && hashcons(g3) == hashcons(g0) by {
        let f1 = (f - 1) as nat;
        lemma_lookup_kids(g0, op, seq![ta, tb], f1);
        assert(seq![ta, tb][0] == ta && seq![ta, tb][1] == tb);
        assert(lookup(g0, ta, f1) is Some);
        assert(lookup(g0, tb, f1) is Some);
        lemma_lookup_inserts(g0, g1, tb, f1);
        lemma_lookup_inserts(g0, g1, node2(op, ta, tb), f);
        crate::term::lemma_inserts_trans(g0, g1, g2);
        lemma_lookup_inserts(g0, g2, node2(op, ta, tb), f);
    }
}

/// Inserts a count expression; the class returned holds it, looking it up
/// finds that class, and inserting an expression the store already holds
/// gives its class and adds no node.
pub fn insert_expr(g: &mut Store, e: &Expr) -> (r: usize)
    requires
        store_wf(*old(g)),
    ensures
        store_wf(*final(g)),
        inserts(*old(g), *final(g)),
        is_root(*final(g), r as nat),
        holds(*final(g), r as nat, expr_tree(*e)),
        found(*final(g), expr_tree(*e), expr_depth(*e), r as nat),
        again(*old(g), *final(g), expr_tree(*e), expr_depth(*e), r as nat),
    decreases e,
{
    let ghost g0 = *g;
    proof {
        lemma_expr_depth(*e);
    }
    match e {
        Expr::Count(n, inner) => {
            let ghost ti = expr_tree(**inner);
            let ghost di = expr_depth(**inner);
            let a = insert_expr(g, inner);
            let ghost g1 = *g;
            proof {
                lemma_expr_depth(**inner);
                assert(found(g1, ti, di, class_roots(g1)[a as nat]));
            }
            let r = insert_count(g, *n, a, Ghost(ti));
            proof {
                lemma_inserts_trans(g0, g1, *g);
                let tc = count_tree(*n as int, ti);
                assert forall|f: nat| f >= di + 1 && (#[trigger] lookup(g0, tc, f)) is Some implies
                    r as nat == lookup(g0, tc, f).unwrap() && hashcons(*g) == hashcons(g0) by {
                    let f1 = (f - 1) as nat;
                    lemma_lookup_kids(g0, "Count"@, seq![num_tree(*n as int), ti], f1);
                    assert(seq![num_tree(*n as int), ti][1] == ti);
                    assert(lookup(g0, ti, f1) is Some);
                    lemma_lookup_inserts(g0, g1, tc, f);
                }
            }
            r
        },
        Expr::Union(x, y) => {
            let ghost tx = expr_tree(**x);
            let ghost ty = expr_tree(**y);
            let ghost dx = expr_depth(**x);
            let ghost dy = expr_depth(**y);
            let ghost m: nat = if dx >= dy { dx } else { dy };
            let a = insert_expr(g, x);
            let ghost g1 = *g;
            let b = insert_expr(g, y);
            let ghost g2 = *g;
            proof {
                lemma_holds_grows(g1, g2, a as nat, tx);
                lemma_found_inserts(g1, g2, tx, dx, a as nat);
                assert(found(g2, tx, m, class_roots(g2)[a as nat]));
                assert(found(g2, ty, m, class_roots(g2)[b as nat]));
            }
            let r = insert_pair(g, "Union", a, b, Ghost(tx), Ghost(ty));
            proof {
                lemma_inserts_trans(g0, g1, g2);
                lemma_inserts_trans(g0, g2, *g);
                lemma_pair_again(g0, g1, g2, *g, "Union"@, tx, ty, dx, dy, m, a as nat, b as nat, r as nat);
            }
            r
        },
        Expr::Morph(p, mo) => {
            let a = insert_pi(g, p);
            let ghost g1 = *g;
            let b = insert_motif(g, mo);
            let ghost g2 = *g;
            proof {
                lemma_holds_grows(g1, g2, a as nat, pi_tree(p@));
                lemma_found_inserts(g1, g2, pi_tree(p@), 2, a as nat);
                assert(found(g2, pi_tree(p@), 3, class_roots(g2)[a as nat]));
                assert(found(g2, motif_tree(mo@), 3, class_roots(g2)[b as nat]));
            }
            let r = insert_pair(g, "Morph", a, b, Ghost(pi_tree(p@)), Ghost(motif_tree(mo@)));
            proof {
                lemma_inserts_trans(g0, g1, g2);
                lemma_inserts_trans(g0, g2, *g);
                lemma_pair_again(g0, g1, g2, *g, "Morph"@, pi_tree(p@), motif_tree(mo@), 2, 3, 3, a as nat, b as nat, r as nat);
            }
            r
        },
        Expr::Const(p, f) => {
            let a = insert_pi(g, p);
            let ghost g1 = *g;
            proof {
                assert(found(g1, pi_tree(p@), 2, class_roots(g1)[a as nat]));
            }
            let r = insert_const(g, a, *f, Ghost(pi_tree(p@)));
            proof {
                lemma_inserts_trans(g0, g1, *g);
                let tc = const_tree(pi_tree(p@), *f);
                let fl = leaf(crate::model::formula_text(*f));
                assert forall|q: nat| q >= 3 && (#[trigger] lookup(g0, tc, q)) is Some implies
                    r as nat == lookup(g0, tc, q).unwrap() && hashcons(*g) == hashcons(g0) by {
                    let q1 = (q - 1) as nat;
                    lemma_lookup_kids(g0, "Const"@, seq![pi_tree(p@), fl], q1);
                    assert(seq![pi_tree(p@), fl][0] == pi_tree(p@));
                    assert(lookup(g0, pi_tree(p@), q1) is Some);
                    lemma_lookup_inserts(g0, g1, tc, q);
                }
            }
            r
        },
    }
}

/// A copy of a motif.
pub fn copy_links(m: &Vec<Link>) -> (r: Vec<Link>)
    ensures
        r@ == m@,
{
    let mut r: Vec<Link> = Vec::new();
    let mut i: usize = 0;
    while i < m.len()
        invariant
            i <= m.len(),
            r@ == m@.take(i as int),
        decreases m.len() - i,
    {
        r.push(m[i]);
        proof {
            assert(m@.take(i + 1) == m@.take(i as int).push(m@[i as int]));
        }
        i = i + 1;
    }
    proof {
        assert(m@.take(m.len() as int) == m@);
    }
    r
}

/// The expression a run starts from: `Count(1, Morph(Pi(i), motif_i))` for each
/// input motif `i`, joined left to right in a union.
pub open spec fn initial_tree(motifs: Seq<Seq<Link>>) -> Tree
    decreases motifs.len(),
{
    let one = |i: int| count_tree(1, morph_tree(pi_tree(seq![i as u32]), motif_tree(motifs[i])));
    if motifs.len() <= 1 {
        one(0)
    } else {
        union_tree(initial_tree(motifs.drop_last()), one(motifs.len() - 1))
    }
}

pub open spec fn motifs_view(v: Seq<Vec<Link>>) -> Seq<Seq<Link>> {
    v.map_values(|m: Vec<Link>| m@)
}

/// A store holding the starting expression over the input motifs (which must
/// not be empty nor more than `u32::MAX`), and the class of that expression.
pub fn initial_store(motifs: &Vec<Vec<Link>>) -> (r: (Store, usize))
    requires
        0 < motifs.len() <= u32::MAX,
    ensures
        store_wf(r.0),
        holds(r.0, r.1 as nat, initial_tree(motifs_view(motifs@))),
{
    let mut g = new_store();
    proof {
        assert(crate::store::roots_wf(crate::store::class_roots(g), crate::store::hashcons(g)));
    }
    let root = insert_initial(&mut g, motifs);
    (g, root)
}

fn insert_initial(g: &mut Store, motifs: &Vec<Vec<Link>>) -> (r: usize)
    requires
        store_wf(*old(g)),
        0 < motifs.len() <= u32::MAX,
    ensures
        store_wf(*final(g)),
        inserts(*old(g), *final(g)),
        is_root(*final(g), r as nat),
        holds(*final(g), r as nat, initial_tree(motifs_view(motifs@))),
{
    let ghost g0 = *g;
    let ghost mv = motifs_view(motifs@);
    let mut acc: usize = 0;
    let mut i: usize = 0;
    while i < motifs.len()
        invariant
            i <= motifs.len() <= u32::MAX,
            mv == motifs_view(motifs@),
            store_wf(*g),
            inserts(g0, *g),
            i > 0 ==> holds(*g, acc as nat, initial_tree(mv.take(i as int))),
            i > 0 ==> is_root(*g, acc as nat),
        decreases motifs.len() - i,
    {
        let ghost gi = *g;
        let mut p: Vec<u32> = Vec::new();
        p.push(i as u32);
        let m = copy_links(&motifs[i]);
        proof {
            assert(p@ =~= seq![i as u32]);
            assert(m@ == mv[i as int]);
        }
        let e = Expr::Count(1, Box::new(Expr::Morph(p, m)));
        let ghost one = count_tree(1, morph_tree(pi_tree(seq![i as u32]), motif_tree(mv[i as int])));
        let c = insert_expr(g, &e);
        let ghost g1 = *g;
        proof {
            reveal_with_fuel(expr_tree, 2);
            assert(expr_tree(e) == one);
            lemma_inserts_trans(g0, gi, g1);
        }
        if i == 0 {
            acc = c;
            proof {
                assert(mv.take(1)[0] == mv[0]);
            }
        } else {
            proof {
                lemma_holds_grows(gi, g1, acc as nat, initial_tree(mv.take(i as int)));
            }
            acc = insert_pair(g, "Union", acc, c, Ghost(initial_tree(mv.take(i as int))), Ghost(one));
            proof {
                lemma_inserts_trans(g0, g1, *g);
                assert(mv.take(i + 1).drop_last() == mv.take(i as int));
                assert(mv.take(i + 1)[i as int] == mv[i as int]);
            }
        }
        i = i + 1;
    }
    proof {
        assert(mv.take(motifs.len() as int) == mv);
    }
    acc
}

} // verus!
