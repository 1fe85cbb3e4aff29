//! The rewrite rules that compute their replacement: nested counts multiply,
//! and two counts of one body under a union are summed, collapsed to zero, or
//! given the merged provenance.
//!
//! Each applier receives the class the rule matched and the values read from
//! the classes its variables are bound to, inserts the replacement, and merges
//! it into the matched class.

use vstd::prelude::*;
use vstd::string::*;
use crate::insert::{insert_count, insert_pair, insert_pi, insert_const};
use crate::model::{const_tree, count_tree, link_op, num_tree, pi_tree, Formula, Link};
use crate::parse::{alphabet_to_number, label_value};
use crate::provenance::{merge_provenance, normal_of, same_provenance};
use crate::store::{class_nodes, class_roots, hashcons, store_node, store_wf, NodeKey, Store};
use crate::term::{grows, holds, leaf_root, lemma_grows_trans, lemma_holds_grows, lemma_inserts_trans, lemma_joined_before, merge, node2, same, Tree};
use crate::text::{int_text, text_to_int};

verus! {

/// The representative node of the class of `id`.
pub open spec fn rep(g: Store, id: nat) -> NodeKey {
    class_nodes(g)[class_roots(g)[id]][0]
}

/// Reads the integer leaf that represents the class of `id`.
pub fn read_num(g: &Store, id: usize) -> (r: Option<i64>)
    requires
        class_roots(*g).dom().contains(id as nat),
    ensures
        r matches Some(v) ==> rep(*g, id as nat) == (int_text(v as int), Seq::<nat>::empty()),
        (exists|v: i64| rep(*g, id as nat) == (int_text(v as int), Seq::<nat>::empty())) ==> r is Some,
{
    let (op, children) = store_node(g, id);
    proof {
        if children.len() == 0 {
            assert(children@.map_values(|c: usize| c as nat) =~= Seq::<nat>::empty());
        } else {
            assert(children@.map_values(|c: usize| c as nat).len() != 0);
        }
    }
    if children.len() != 0 {
        return None;
    }
    text_to_int(op.as_str())
}

/// The class of `c` is represented by the leaf of an index (a `u32`).
pub open spec fn index_leaf(g: Store, c: nat) -> bool {
    class_roots(g).dom().contains(c) && exists|w: u32| rep(g, c) == (int_text(w as int), Seq::<nat>::empty())
}

/// The class of `id` is represented by a `Pi` node over index leaves.
pub open spec fn pi_node(g: Store, id: nat) -> bool {
    let node = rep(g, id);
    node.0 == "Pi"@ && forall|i: int| 0 <= i < node.1.len() ==> #[trigger] index_leaf(g, node.1[i])
}

/// Reads the provenance tag that represents the class of `id`: a `Pi` node
/// whose children are represented by indices.
pub fn read_pi(g: &Store, id: usize) -> (r: Option<Vec<u32>>)
    requires
        class_roots(*g).dom().contains(id as nat),
    ensures
        r matches Some(p) ==> {
            let node = rep(*g, id as nat);
            &&& node.0 == "Pi"@
            &&& node.1.len() == p.len()
            &&& forall|i: int| 0 <= i < p.len() ==> class_roots(*g).dom().contains(#[trigger] node.1[i])
                && rep(*g, node.1[i]) == (int_text(p[i] as int), Seq::<nat>::empty())
        },
        pi_node(*g, id as nat) ==> r is Some,
{
    let (op, children) = store_node(g, id);
    let ghost kids = children@.map_values(|c: usize| c as nat);
    assert(crate::store::children_known(class_roots(*g), kids));
    if op != String::from_str("Pi") {
        return None;
    }
    let mut p: Vec<u32> = Vec::new();
    let mut i: usize = 0;
    while i < children.len()
        invariant
            i <= children.len(),
            p.len() == i,
            kids == children@.map_values(|c: usize| c as nat),
            crate::store::children_known(class_roots(*g), kids),
            op@ == "Pi"@,
            rep(*g, id as nat) == (op@, kids),
            forall|j: int| 0 <= j < i ==> class_roots(*g).dom().contains(#[trigger] kids[j])
                && rep(*g, kids[j]) == (int_text(p[j] as int), Seq::<nat>::empty()),
        decreases children.len() - i,
    {
        let c = children[i];
        assert(kids[i as int] == c as nat);
        proof {
            assert(kids.len() == children.len());
            assert(rep(*g, id as nat).1 == kids);
            if pi_node(*g, id as nat) {
                assert(index_leaf(*g, rep(*g, id as nat).1[i as int]));
                assert(index_leaf(*g, kids[i as int]));
                let w = choose|w: u32| rep(*g, c as nat) == (int_text(w as int), Seq::<nat>::empty());
                assert(rep(*g, c as nat) == (int_text((w as i64) as int), Seq::<nat>::empty()));
            }
        }
        match read_num(g, c) {
            Some(v) => {
                if v < 0 || v > 0xffff_ffff {
                    proof {
                        if pi_node(*g, id as nat) {
                            assert(rep(*g, id as nat).1 == kids);
                            assert(index_leaf(*g, rep(*g, id as nat).1[i as int]));
                            let w = choose|w: u32| rep(*g, c as nat) == (int_text(w as int), Seq::<nat>::empty());
                            crate::text::lemma_int_text_injective(v as int, w as int);
                        }
                    }
                    return None;
                }
                p.push(v as u32);
            },
            None => {
                return None;
            },
        }
        i = i + 1;
    }
    Some(p)
}

/// The class of `c` is represented by a leaf naming vertex `v`.
pub open spec fn label_of(g: Store, c: nat, v: usize) -> bool {
    class_roots(g).dom().contains(c) && rep(g, c).1.len() == 0 && label_value(rep(g, c).0) == v
}

/// The class of `c` is represented by a leaf that names a vertex: a non-empty
/// run of `a`..`z` whose value fits in `usize`.
pub open spec fn label_leaf(g: Store, c: nat) -> bool {
    let node = rep(g, c);
    &&& class_roots(g).dom().contains(c)
    &&& node.1.len() == 0
    &&& node.0.len() > 0
    &&& forall|k: int| 0 <= k < node.0.len() ==> 'a' <= #[trigger] node.0[k] <= 'z'
    &&& label_value(node.0) <= usize::MAX
}

/// The class of `k` is represented by a `--` or `!-` node over two vertex leaves.
pub open spec fn link_node(g: Store, k: nat) -> bool {
    let node = rep(g, k);
    &&& class_roots(g).dom().contains(k)
    &&& node.1.len() == 2
    &&& (node.0 == "--"@ || node.0 == "!-"@)
    &&& label_leaf(g, node.1[0])
    &&& label_leaf(g, node.1[1])
}

/// The class of `id` is represented by a `Match` node over link nodes.
pub open spec fn match_node(g: Store, id: nat) -> bool {
    let node = rep(g, id);
    node.0 == "Match"@ && forall|i: int| 0 <= i < node.1.len() ==> #[trigger] link_node(g, node.1[i])
}

/// Reads the vertex leaf that represents the class of `id`.
fn read_label(g: &Store, id: usize) -> (r: Option<usize>)
    requires
        class_roots(*g).dom().contains(id as nat),
    ensures
        r matches Some(v) ==> label_of(*g, id as nat, v),
        label_leaf(*g, id as nat) ==> r is Some,
{
    let (op, children) = store_node(g, id);
    if children.len() != 0 {
        proof {
            assert(children@.map_values(|c: usize| c as nat).len() != 0);
        }
        return None;
    }
    proof {
        assert(children@.map_values(|c: usize| c as nat) =~= Seq::<nat>::empty());
    }
    if op.as_str().unicode_len() == 0 {
        return None;
    }
    alphabet_to_number(op.as_str())
}

/// Reads the motif that represents the class of `id`: a `Match` node whose
/// children are represented by `--` or `!-` nodes over two vertex leaves,
/// each link read with the vertices its leaves name.
pub fn read_motif(g: &Store, id: usize) -> (r: Option<Vec<Link>>)
    requires
        class_roots(*g).dom().contains(id as nat),
    ensures
        r matches Some(m) ==> {
            let node = rep(*g, id as nat);
            &&& node.0 == "Match"@
            &&& node.1.len() == m.len()
            &&& forall|i: int| 0 <= i < m.len() ==> class_roots(*g).dom().contains(#[trigger] node.1[i])
                && rep(*g, node.1[i]).0 == link_op(m[i])
                && rep(*g, node.1[i]).1.len() == 2
                && label_of(*g, rep(*g, node.1[i]).1[0], m[i].u)
                && label_of(*g, rep(*g, node.1[i]).1[1], m[i].v)
        },
        match_node(*g, id as nat) ==> r is Some,
{
    let (op, children) = store_node(g, id);
    let ghost kids = children@.map_values(|c: usize| c as nat);
    assert(crate::store::children_known(class_roots(*g), kids));
    if op != String::from_str("Match") {
        return None;
    }
    let mut m: Vec<Link> = Vec::new();
    let mut i: usize = 0;
    while i < children.len()
        invariant
            i <= children.len(),
            m.len() == i,
            kids == children@.map_values(|c: usize| c as nat),
            kids.len() == children.len(),
            crate::store::children_known(class_roots(*g), kids),
            op@ == "Match"@,
            rep(*g, id as nat) == (op@, kids),
            forall|j: int| 0 <= j < i ==> class_roots(*g).dom().contains(#[trigger] kids[j])
                && rep(*g, kids[j]).0 == link_op(m@[j]) && rep(*g, kids[j]).1.len() == 2
                && label_of(*g, rep(*g, kids[j]).1[0], m@[j].u)
                && label_of(*g, rep(*g, kids[j]).1[1], m@[j].v),
        decreases children.len() - i,
    {
        let c = children[i];
        assert(kids[i as int] == c as nat);
        proof {
            if match_node(*g, id as nat) {
                assert(link_node(*g, rep(*g, id as nat).1[i as int]));
            }
        }
        let (lop, ends) = store_node(g, c);
        let ghost ek = ends@.map_values(|c: usize| c as nat);
        assert(crate::store::children_known(class_roots(*g), ek));
        assert(ek.len() == ends.len());
        if ends.len() != 2 {
            return None;
        }
        proof {
            reveal_strlit("--");
            reveal_strlit("!-");
        }
        let anti = if lop == String::from_str("--") {
            false
        } else if lop == String::from_str("!-") {
            true
        } else {
            return None;
        };
        assert(ek[0] == ends[0] as nat && ek[1] == ends[1] as nat);
        let u = match read_label(g, ends[0]) {
            Some(u) => u,
            None => {
                return None;
            },
        };
        let v = match read_label(g, ends[1]) {
            Some(v) => v,
            None => {
                return None;
            },
        };
        m.push(Link { u, v, anti });
        i = i + 1;
    }
    Some(m)
}

/// What nested counts `Count(n1, Count(n2, rest))` become.
pub open spec fn product_tree(n1: int, n2: int, rest: nat) -> Tree {
    count_tree(n1 * n2, Tree::Class(rest))
}

/// Nested counts multiply. Gives the class of `Count(n1 * n2, rest)` and
/// whether it was merged into `matched` just now; a product that does not fit
/// in `i64` rejects the rewrite and leaves the store as it was.
pub fn count_mult(g: &mut Store, matched: usize, n1: i64, n2: i64, rest: usize) -> (r: Option<(usize, bool)>)
    requires
        store_wf(*old(g)),
        class_roots(*old(g)).dom().contains(matched as nat),
        class_roots(*old(g)).dom().contains(rest as nat),
    ensures
        r is None <==> !(i64::MIN <= n1 * n2 <= i64::MAX),
        r is None ==> *final(g) == *old(g),
        r matches Some((id, merged)) ==> {
            &&& store_wf(*final(g))
            &&& grows(*old(g), *final(g))
            &&& same(*final(g), matched as nat, id as nat)
            &&& holds(*final(g), matched as nat, product_tree(n1 as int, n2 as int, rest as nat))
            &&& merged == !(class_roots(*old(g)).dom().contains(id as nat) && same(*old(g), matched as nat, id as nat))
        },
{
    let n = match n1.checked_mul(n2) {
        Some(n) => n,
        None => {
            return None;
        },
    };
    let ghost g0 = *g;
    let id = insert_count(g, n, rest, Ghost(Tree::Class(rest as nat)));
    let ghost g1 = *g;
    proof {
        assert(class_roots(g1).dom().contains(matched as nat));
    }
    let merged = merge(g, matched, id);
    proof {
        lemma_joined_before(g0, g1, matched as nat, id as nat);
        lemma_grows_trans(g0, g1, *g);
        lemma_holds_grows(g1, *g, id as nat, product_tree(n1 as int, n2 as int, rest as nat));
        crate::term::lemma_same_holds(*g, matched as nat, id as nat, product_tree(n1 as int, n2 as int, rest as nat));
    }
    Some((id, merged))
}

pub open spec fn body_op(morph: bool) -> Seq<char> {
    if morph {
        "Morph"@
    } else {
        "Const"@
    }
}

/// What `Union(Count(n1, B(pi1, body)), Count(n2, B(pi2, body)))` becomes, `B`
/// being `Morph` or `Const`, when `p1` and `p2` are the tags that `pi1` and
/// `pi2` stand for and `q` is the ascending union of both.
pub open spec fn dedup_tree(sum: int, p1: Seq<u32>, p2: Seq<u32>, q: Seq<u32>, pi1: nat, body: nat, morph: bool) -> Tree {
    if p1 == p2 {
        if sum == 0 {
            count_tree(1, const_tree(Tree::Class(pi1), Formula::F0))
        } else {
            count_tree(sum, node2(body_op(morph), Tree::Class(pi1), Tree::Class(body)))
        }
    } else {
        count_tree(sum, node2(body_op(morph), pi_tree(q), Tree::Class(body)))
    }
}

/// Every node that `g` holds beyond `g0` is a node of `Count(1, Const(pi1, F0))`:
/// the leaves `F0` and `1`, a `Const` node under the tag class `pi1`, or a
/// `Count` node over the leaf `1` and a class holding `Const(pi1, F0)`.
pub open spec fn zero_added(g0: Store, g: Store, pi1: nat) -> bool {
    forall|k: NodeKey| #[trigger] hashcons(g).dom().contains(k) && !hashcons(g0).dom().contains(k) ==> {
        ||| k == ("F0"@, Seq::<nat>::empty())
        ||| k == (int_text(1), Seq::<nat>::empty())
        ||| (k.0 == "Const"@ && k.1.len() == 2 && k.1[0] == class_roots(g0)[pi1])
        ||| (k.0 == "Count"@ && k.1.len() == 2 && holds(g, k.1[0], num_tree(1))
            && holds(g, k.1[1], const_tree(Tree::Class(pi1), Formula::F0)))
    }
}

/// Two counts of one body under a union. Gives the class of the replacement
/// (see `dedup_tree`) and whether it was merged into `matched` just now; a sum
/// that does not fit in `i64` rejects the rewrite and leaves the store as it
/// was.
pub fn union_dedup(
    g: &mut Store,
    matched: usize,
    n1: i64,
    n2: i64,
    p1: &Vec<u32>,
    p2: &Vec<u32>,
    pi1: usize,
    body: usize,
    morph: bool,
) -> (r: Option<(usize, bool)>)
    requires
        store_wf(*old(g)),
        class_roots(*old(g)).dom().contains(matched as nat),
        class_roots(*old(g)).dom().contains(pi1 as nat),
        class_roots(*old(g)).dom().contains(body as nat),
    ensures
        r is None <==> !(i64::MIN <= n1 + n2 <= i64::MAX),
        r is None ==> *final(g) == *old(g),
        r matches Some((id, merged)) ==> {
            &&& store_wf(*final(g))
            &&& grows(*old(g), *final(g))
            &&& same(*final(g), matched as nat, id as nat)
            &&& merged == !(class_roots(*old(g)).dom().contains(id as nat) && same(*old(g), matched as nat, id as nat))
            &&& exists|q: Seq<u32>| normal_of(q, p1@.to_set().union(p2@.to_set()))
                && holds(*final(g), matched as nat, dedup_tree(n1 + n2, p1@, p2@, q, pi1 as nat, body as nat, morph))
            &&& (p1@ == p2@ && n1 + n2 == 0 ==> zero_added(*old(g), *final(g), pi1 as nat))
        },
{
    let sum = match n1.checked_add(n2) {
        Some(s) => s,
        None => {
            return None;
        },
    };
    let ghost g0 = *g;
    let q = merge_provenance(p1, p2);
    let op = if morph { "Morph" } else { "Const" };
    let ghost mut gz = g0;
    let id;
    if same_provenance(p1, p2) {
        if sum == 0 {
            let c = insert_const(g, pi1, Formula::F0, Ghost(Tree::Class(pi1 as nat)));
            let ghost ga = *g;
            id = insert_count(g, 1, c, Ghost(const_tree(Tree::Class(pi1 as nat), Formula::F0)));
            proof {
                lemma_inserts_trans(g0, ga, *g);
                let ct = const_tree(Tree::Class(pi1 as nat), Formula::F0);
                assert(class_roots(ga)[c as nat] == c);
                lemma_holds_grows(ga, *g, c as nat, ct);
                assert forall|k: NodeKey| #[trigger] hashcons(*g).dom().contains(k) && !hashcons(g0).dom().contains(k) implies {
                    ||| k == ("F0"@, Seq::<nat>::empty())
                    ||| k == (int_text(1), Seq::<nat>::empty())
                    ||| (k.0 == "Const"@ && k.1.len() == 2 && k.1[0] == class_roots(g0)[pi1 as nat])
                    ||| (k.0 == "Count"@ && k.1.len() == 2 && holds(*g, k.1[0], num_tree(1))
                        && holds(*g, k.1[1], ct))
                } by {
                    if !hashcons(ga).dom().contains(k) {
                        assert(k.1 == seq![leaf_root(*g, int_text(1)), class_roots(ga)[c as nat]] || k == (int_text(1), Seq::<nat>::empty()));
                    }
                }
                assert(zero_added(g0, *g, pi1 as nat));
            }
            proof { gz = *g; }
        } else {
            proof {
                assert(holds(g0, body as nat, Tree::Class(body as nat)));
            }
            let b = insert_pair(g, op, pi1, body, Ghost(Tree::Class(pi1 as nat)), Ghost(Tree::Class(body as nat)));
            let ghost ga = *g;
            id = insert_count(g, sum, b, Ghost(node2(body_op(morph), Tree::Class(pi1 as nat), Tree::Class(body as nat))));
            proof {
                lemma_inserts_trans(g0, ga, *g);
            }
        }
    } else {
        let pi = insert_pi(g, &q);
        let ghost ga = *g;
        proof {
            assert(holds(*g, body as nat, Tree::Class(body as nat)));
        }
        let b = insert_pair(g, op, pi, body, Ghost(pi_tree(q@)), Ghost(Tree::Class(body as nat)));
        let ghost gb = *g;
        id = insert_count(g, sum, b, Ghost(node2(body_op(morph), pi_tree(q@), Tree::Class(body as nat))));
        proof {
            lemma_inserts_trans(g0, ga, gb);
            lemma_inserts_trans(g0, gb, *g);
        }
    }
    let ghost g1 = *g;
    let ghost t = dedup_tree(n1 + n2, p1@, p2@, q@, pi1 as nat, body as nat, morph);
    let merged = merge(g, matched, id);
    proof {
        if p1@ == p2@ && n1 + n2 == 0 {
            assert(gz == g1);
            assert forall|k: NodeKey| #[trigger] hashcons(*g).dom().contains(k) && !hashcons(g0).dom().contains(k) implies {
                ||| k == ("F0"@, Seq::<nat>::empty())
                ||| k == (int_text(1), Seq::<nat>::empty())
                ||| (k.0 == "Const"@ && k.1.len() == 2 && k.1[0] == class_roots(g0)[pi1 as nat])
                ||| (k.0 == "Count"@ && k.1.len() == 2 && holds(*g, k.1[0], num_tree(1))
                    && holds(*g, k.1[1], const_tree(Tree::Class(pi1 as nat), Formula::F0)))
            } by {
                assert(hashcons(g1).dom().contains(k));
                if k.0 == "Count"@ && k.1.len() == 2 && holds(g1, k.1[0], num_tree(1))
                    && holds(g1, k.1[1], const_tree(Tree::Class(pi1 as nat), Formula::F0)) {
                    lemma_holds_grows(g1, *g, k.1[0], num_tree(1));
                    lemma_holds_grows(g1, *g, k.1[1], const_tree(Tree::Class(pi1 as nat), Formula::F0));
                }
            }
        }
        lemma_joined_before(g0, g1, matched as nat, id as nat);
        lemma_grows_trans(g0, g1, *g);
        lemma_holds_grows(g1, *g, id as nat, t);
        crate::term::lemma_same_holds(*g, matched as nat, id as nat, t);
    }
    Some((id, merged))
}

} // verus!
