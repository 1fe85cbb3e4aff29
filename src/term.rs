//! Terms as the store holds them, and the relation that ties a class to a term.
//!
//! `holds(g, id, t)` says that the class of `id` contains the term `t`: a node
//! with `t`'s operator whose children hold `t`'s subterms. A `Tree::Class` leaf
//! stands for whatever a given class holds. Inserting nodes and merging classes
//! only ever add to what a class holds.

use vstd::prelude::*;
use crate::store::{canonical, children_known, class_roots, hashcons, inserted, roots_wf, store_add, store_union, store_wf, unioned, NodeKey, Store};

verus! {

/// A term over the store's nodes, with classes of the store as leaves.
pub enum Tree {
    Class(nat),
    Node(Seq<char>, Seq<Tree>),
}

/// `a` and `b` are ids of one class.
pub open spec fn same(g: Store, a: nat, b: nat) -> bool {
    let roots = class_roots(g);
    roots.dom().contains(a) && roots.dom().contains(b) && roots[a] == roots[b]
}

/// The class of `id` contains the term `t`.
pub open spec fn holds(g: Store, id: nat, t: Tree) -> bool
    decreases t,
{
    match t {
        Tree::Class(c) => same(g, id, c),
        Tree::Node(op, kids) => exists|k: NodeKey|
            #[trigger] hashcons(g).dom().contains(k) && k.0 == op && k.1.len() == kids.len()
                && same(g, hashcons(g)[k], id)
                && forall|i: int| 0 <= i < kids.len() ==> holds(g, #[trigger] k.1[i], kids[i]),
    }
}

/// `g1` keeps every node, id and class equality of `g0`.
pub open spec fn grows(g0: Store, g1: Store) -> bool {
    let roots0 = class_roots(g0);
    let roots1 = class_roots(g1);
    &&& hashcons(g0).submap_of(hashcons(g1))
    &&& roots0.dom().subset_of(roots1.dom())
    &&& forall|a: nat, b: nat|
        roots0.dom().contains(a) && roots0.dom().contains(b) && #[trigger] roots0[a] == #[trigger] roots0[b]
            ==> roots1[a] == roots1[b]
}

pub open spec fn leaf(op: Seq<char>) -> Tree {
    Tree::Node(op, Seq::empty())
}

pub open spec fn node2(op: Seq<char>, a: Tree, b: Tree) -> Tree {
    Tree::Node(op, seq![a, b])
}

pub proof fn lemma_same_holds(g: Store, a: nat, b: nat, t: Tree)
    requires
        store_wf(g),
        same(g, a, b),
        holds(g, b, t),
    ensures
        holds(g, a, t),
{
    match t {
        Tree::Class(c) => {},
        Tree::Node(op, kids) => {
            let k = choose|k: NodeKey|
                #[trigger] hashcons(g).dom().contains(k) && k.0 == op && k.1.len() == kids.len()
                    && same(g, hashcons(g)[k], b)
                    && forall|i: int| 0 <= i < kids.len() ==> holds(g, #[trigger] k.1[i], kids[i]);
            assert(same(g, hashcons(g)[k], a));
        },
    }
}

pub proof fn lemma_holds_grows(g0: Store, g1: Store, id: nat, t: Tree)
    requires
        grows(g0, g1),
        holds(g0, id, t),
    ensures
        holds(g1, id, t),
    decreases t,
{
    let roots0 = class_roots(g0);
    let roots1 = class_roots(g1);
    match t {
        Tree::Class(c) => {
            assert(roots0[id] == roots0[c]);
        },
        Tree::Node(op, kids) => {
            let k = choose|k: NodeKey|
                #[trigger] hashcons(g0).dom().contains(k) && k.0 == op && k.1.len() == kids.len()
                    && same(g0, hashcons(g0)[k], id)
                    && forall|i: int| 0 <= i < kids.len() ==> holds(g0, #[trigger] k.1[i], kids[i]);
            assert(hashcons(g1).dom().contains(k) && hashcons(g1)[k] == hashcons(g0)[k]);
            assert(roots0[hashcons(g0)[k]] == roots0[id]);
            assert forall|i: int| 0 <= i < kids.len() implies holds(g1, #[trigger] k.1[i], kids[i]) by {
                lemma_holds_grows(g0, g1, k.1[i], kids[i]);
            }
            assert(same(g1, hashcons(g1)[k], id));
        },
    }
}

pub proof fn lemma_inserted_grows(g0: Store, key: NodeKey, g1: Store, r: nat)
    requires
        store_wf(g0),
        children_known(class_roots(g0), key.1),
        inserted(g0, key, g1, r),
    ensures
        store_wf(g1),
        grows(g0, g1),
        holds(g1, r, Tree::Node(key.0, key.1.map_values(|c: nat| Tree::Class(c)))),
        class_roots(g1).dom().contains(r),
{
    let roots0 = class_roots(g0);
    let roots1 = class_roots(g1);
    let cons0 = hashcons(g0);
    let c = canonical(roots0, key);
    if !cons0.dom().contains(c) {
        assert(cons0.submap_of(hashcons(g1)));
    }
    assert(roots_wf(roots1, hashcons(g1)));
    let kids = key.1.map_values(|c: nat| Tree::Class(c));
    assert(hashcons(g1).dom().contains(c));
    assert forall|i: int| 0 <= i < kids.len() implies holds(g1, #[trigger] c.1[i], kids[i]) by {
        assert(roots0.dom().contains(key.1[i]));
    }
}

pub proof fn lemma_unioned_grows(g0: Store, a: nat, b: nat, g1: Store, merged: bool)
    requires
        store_wf(g0),
        class_roots(g0).dom().contains(a),
        class_roots(g0).dom().contains(b),
        unioned(g0, a, b, g1, merged),
    ensures
        store_wf(g1),
        grows(g0, g1),
        same(g1, a, b),
{
    let roots0 = class_roots(g0);
    let roots1 = class_roots(g1);
    assert(roots0[roots0[a]] == roots0[a]);
    assert(roots0[roots0[b]] == roots0[b]);
    assert forall|k: nat| #[trigger] roots1.dom().contains(k) implies roots1.dom().contains(roots1[k])
        && roots1[roots1[k]] == roots1[k] by {
        assert(roots0[roots0[k]] == roots0[k]);
    }
}

/// Inserts one node whose children hold `kids`; the new class holds the node
/// over those terms.
pub(crate) fn add_node(g: &mut Store, op: &str, children: &Vec<usize>, Ghost(kids): Ghost<Seq<Tree>>) -> (r: usize)
    requires
        store_wf(*old(g)),
        children.len() == kids.len(),
        forall|i: int| 0 <= i < kids.len() ==> holds(*old(g), #[trigger] children[i] as nat, kids[i]),
    ensures
        store_wf(*final(g)),
        inserts(*old(g), *final(g)),
        is_root(*final(g), r as nat),
        holds(*final(g), r as nat, Tree::Node(op@, kids)),
        forall|d: nat| #[trigger] kids_found(*old(g), kids, children@, d) ==>
            found(*final(g), Tree::Node(op@, kids), d + 1, r as nat) && again(*old(g), *final(g), Tree::Node(op@, kids), d + 1, r as nat),
        adds_only(*old(g), *final(g), set![canonical(class_roots(*old(g)), (op@, children@.map_values(|c: usize| c as nat)))]),
        hashcons(*final(g)).dom().contains(canonical(class_roots(*old(g)), (op@, children@.map_values(|c: usize| c as nat)))),
        class_roots(*final(g))[hashcons(*final(g))[canonical(class_roots(*old(g)), (op@, children@.map_values(|c: usize| c as nat)))]] == r,
{
    let ghost g0 = *g;
    let ghost key = (op@, children@.map_values(|c: usize| c as nat));
    proof {
        assert forall|i: int| 0 <= i < key.1.len() implies class_roots(g0).dom().contains(#[trigger] key.1[i]) by {
            assert(holds(g0, children[i] as nat, kids[i]));
            lemma_holds_known(g0, children[i] as nat, kids[i]);
        }
    }
    let r = store_add(g, op, children);
    proof {
        lemma_inserted_grows(g0, key, *g, r as nat);
        let c = canonical(class_roots(g0), key);
        if hashcons(g0).dom().contains(c) {
            assert(class_roots(g0).dom().contains(hashcons(g0)[c]));
        }
        let g1 = *g;
        let k = canonical(class_roots(g0), key);
        let refs = key.1.map_values(|c: nat| Tree::Class(c));
        let w = choose|w: NodeKey|
            #[trigger] hashcons(g1).dom().contains(w) && w.0 == op@ && w.1.len() == refs.len()
                && same(g1, hashcons(g1)[w], r as nat)
                && forall|i: int| 0 <= i < refs.len() ==> holds(g1, #[trigger] w.1[i], refs[i]);
        assert forall|i: int| 0 <= i < kids.len() implies holds(g1, #[trigger] w.1[i], kids[i]) by {
            assert(holds(g1, w.1[i], refs[i]));
            lemma_holds_grows(g0, g1, children[i] as nat, kids[i]);
            lemma_same_holds(g1, w.1[i], children[i] as nat, kids[i]);
        }
        assert forall|d: nat| #[trigger] kids_found(g0, kids, children@, d) implies
            found(g1, Tree::Node(op@, kids), d + 1, r as nat) && again(g0, g1, Tree::Node(op@, kids), d + 1, r as nat) by {
            lemma_add_node_found(g0, g1, op@, children@, kids, r as nat, d);
        }
    }
    r
}

/// Merges the classes of `a` and `b`; each then holds what the other held.
pub(crate) fn merge(g: &mut Store, a: usize, b: usize) -> (merged: bool)
    requires
        store_wf(*old(g)),
        class_roots(*old(g)).dom().contains(a as nat),
        class_roots(*old(g)).dom().contains(b as nat),
    ensures
        store_wf(*final(g)),
        grows(*old(g), *final(g)),
        same(*final(g), a as nat, b as nat),
        merged == !same(*old(g), a as nat, b as nat),
        hashcons(*final(g)) == hashcons(*old(g)),
{
    let ghost g0 = *g;
    let m = store_union(g, a, b);
    proof {
        lemma_unioned_grows(g0, a as nat, b as nat, *g, m);
    }
    m
}

pub proof fn lemma_holds_known(g: Store, id: nat, t: Tree)
    requires
        holds(g, id, t),
    ensures
        class_roots(g).dom().contains(id),
{
}

/// The class of the term `t` in `g`, found by looking each node up in the
/// hash-cons with its children's classes (nodes deeper than `fuel` are not
/// looked at): what inserting `t` again would hit.
pub open spec fn lookup(g: Store, t: Tree, fuel: nat) -> Option<nat>
    decreases fuel, 0nat,
{
    match t {
        Tree::Class(c) => if class_roots(g).dom().contains(c) {
            Some(class_roots(g)[c])
        } else {
            None
        },
        Tree::Node(op, kids) => if fuel == 0 {
            None
        } else {
            match lookup_all(g, kids, (fuel - 1) as nat) {
                Some(cs) => if hashcons(g).dom().contains((op, cs)) {
                    Some(class_roots(g)[hashcons(g)[(op, cs)]])
                } else {
                    None
                },
                None => None,
            }
        },
    }
}

pub open spec fn lookup_all(g: Store, kids: Seq<Tree>, fuel: nat) -> Option<Seq<nat>>
    decreases fuel, kids.len(),
{
    if kids.len() == 0 {
        Some(Seq::empty())
    } else {
        match (lookup_all(g, kids.drop_last(), fuel), lookup(g, kids.last(), fuel)) {
            (Some(cs), Some(c)) => Some(cs.push(c)),
            _ => None,
        }
    }
}

pub proof fn lemma_lookup_all_index(g: Store, kids: Seq<Tree>, fuel: nat)
    ensures
        lookup_all(g, kids, fuel) is Some <==> forall|i: int| 0 <= i < kids.len() ==> (#[trigger] lookup(g, kids[i], fuel)) is Some,
        lookup_all(g, kids, fuel) matches Some(cs) ==> cs.len() == kids.len()
            && forall|i: int| 0 <= i < kids.len() ==> (#[trigger] lookup(g, kids[i], fuel)) == Some(cs[i]),
    decreases kids.len(),
{
    if kids.len() > 0 {
        let d = kids.drop_last();
        lemma_lookup_all_index(g, d, fuel);
        assert forall|i: int| 0 <= i < d.len() implies #[trigger] d[i] == kids[i] by {}
        if forall|i: int| 0 <= i < kids.len() ==> (#[trigger] lookup(g, kids[i], fuel)) is Some {
            assert forall|i: int| 0 <= i < d.len() implies (#[trigger] lookup(g, d[i], fuel)) is Some by {
                assert(lookup(g, kids[i], fuel) is Some);
            }
            assert(lookup(g, kids[kids.len() - 1], fuel) is Some);
        }
        if lookup_all(g, kids, fuel) is Some {
            let cs = lookup_all(g, kids, fuel).unwrap();
            let cd = lookup_all(g, d, fuel).unwrap();
            assert(cs == cd.push(lookup(g, kids.last(), fuel).unwrap()));
            assert forall|i: int| 0 <= i < kids.len() implies (#[trigger] lookup(g, kids[i], fuel)) == Some(cs[i]) by {
                if i < d.len() {
                    assert(lookup(g, d[i], fuel) == Some(cd[i]));
                    assert(cs[i] == cd[i]);
                }
            }
        }
    }
}

pub proof fn lemma_lookup_inserts(g0: Store, g1: Store, t: Tree, fuel: nat)
    requires
        store_wf(g0),
        inserts(g0, g1),
        lookup(g0, t, fuel) is Some,
    ensures
        lookup(g1, t, fuel) == lookup(g0, t, fuel),
    decreases fuel, 0nat,
{
    match t {
        Tree::Class(c) => {},
        Tree::Node(op, kids) => {
            lemma_lookup_all_inserts(g0, g1, kids, (fuel - 1) as nat);
            let cs = lookup_all(g0, kids, (fuel - 1) as nat).unwrap();
            assert(hashcons(g1).dom().contains((op, cs)) && hashcons(g1)[(op, cs)] == hashcons(g0)[(op, cs)]);
            assert(class_roots(g0).dom().contains(hashcons(g0)[(op, cs)]));
        },
    }
}

pub proof fn lemma_lookup_all_inserts(g0: Store, g1: Store, kids: Seq<Tree>, fuel: nat)
    requires
        store_wf(g0),
        inserts(g0, g1),
        lookup_all(g0, kids, fuel) is Some,
    ensures
        lookup_all(g1, kids, fuel) == lookup_all(g0, kids, fuel),
    decreases fuel, kids.len(),
{
    if kids.len() > 0 {
        lemma_lookup_all_inserts(g0, g1, kids.drop_last(), fuel);
        lemma_lookup_inserts(g0, g1, kids.last(), fuel);
    }
}

/// Looking `t` up in `g` with any fuel from `d` on gives the class `r`.
pub open spec fn found(g: Store, t: Tree, d: nat, r: nat) -> bool {
    forall|f: nat| f >= d ==> #[trigger] lookup(g, t, f) == Some(r)
}

/// If `g0` already held `t` (looked up with any fuel from `d` on), inserting
/// it gave that class and added no node.
pub open spec fn again(g0: Store, g1: Store, t: Tree, d: nat, r: nat) -> bool {
    forall|f: nat| f >= d && (#[trigger] lookup(g0, t, f)) is Some ==>
        r == lookup(g0, t, f).unwrap() && hashcons(g1) == hashcons(g0)
}

/// Every child term is found at the class of its id, with fuel from `d` on.
pub open spec fn kids_found(g: Store, kids: Seq<Tree>, children: Seq<usize>, d: nat) -> bool {
    forall|i: int| 0 <= i < kids.len() ==> #[trigger] found(g, kids[i], d, class_roots(g)[children[i] as nat])
}

proof fn lemma_add_node_found(g0: Store, g1: Store, op: Seq<char>, children: Seq<usize>, kids: Seq<Tree>, r: nat, d: nat)
    requires
        store_wf(g0),
        inserts(g0, g1),
        children.len() == kids.len(),
        children_known(class_roots(g0), children.map_values(|c: usize| c as nat)),
        inserted(g0, (op, children.map_values(|c: usize| c as nat)), g1, r),
        kids_found(g0, kids, children, d),
    ensures
        found(g1, Tree::Node(op, kids), d + 1, r),
        again(g0, g1, Tree::Node(op, kids), d + 1, r),
{
    let roots0 = class_roots(g0);
    let key = (op, children.map_values(|c: usize| c as nat));
    let c = canonical(roots0, key);
    assert forall|f: nat| f >= d implies lookup_all(g0, kids, f) == Some(c.1) by {
        lemma_lookup_all_index(g0, kids, f);
        assert forall|i: int| 0 <= i < kids.len() implies (#[trigger] lookup(g0, kids[i], f)) is Some by {
            assert(found(g0, kids[i], d, roots0[children[i] as nat]));
        }
        let cs = lookup_all(g0, kids, f).unwrap();
        assert forall|i: int| 0 <= i < kids.len() implies cs[i] == c.1[i] by {
            assert(found(g0, kids[i], d, roots0[children[i] as nat]));
            assert(lookup(g0, kids[i], f) == Some(cs[i]));
        }
        assert(cs =~= c.1);
    }
    if hashcons(g0).dom().contains(c) {
        assert(roots0.dom().contains(hashcons(g0)[c]));
    }
    assert forall|f: nat| f >= d + 1 implies #[trigger] lookup(g1, Tree::Node(op, kids), f) == Some(r) by {
        let f1 = (f - 1) as nat;
        assert(lookup_all(g0, kids, f1) == Some(c.1));
        lemma_lookup_all_inserts(g0, g1, kids, f1);
        assert(hashcons(g1).dom().contains(c));
    }
    assert forall|f: nat| f >= d + 1 && (#[trigger] lookup(g0, Tree::Node(op, kids), f)) is Some implies
        r == lookup(g0, Tree::Node(op, kids), f).unwrap() && hashcons(g1) == hashcons(g0) by {
        assert(lookup_all(g0, kids, (f - 1) as nat) == Some(c.1));
    }
}

pub proof fn lemma_found_inserts(g0: Store, g1: Store, t: Tree, d: nat, r: nat)
    requires
        store_wf(g0),
        inserts(g0, g1),
        found(g0, t, d, r),
    ensures
        found(g1, t, d, r),
{
    assert forall|f: nat| f >= d implies #[trigger] lookup(g1, t, f) == Some(r) by {
        assert(lookup(g0, t, f) == Some(r));
        lemma_lookup_inserts(g0, g1, t, f);
    }
}

/// A node found with fuel `d + 1` has each child found with fuel `d`.
pub proof fn lemma_lookup_kids(g: Store, op: Seq<char>, kids: Seq<Tree>, d: nat)
    requires
        lookup(g, Tree::Node(op, kids), d + 1) is Some,
    ensures
        forall|i: int| 0 <= i < kids.len() ==> (#[trigger] lookup(g, kids[i], d)) is Some,
{
    lemma_lookup_all_index(g, kids, d);
}

/// The hash-cons of `g1` holds no node beyond those of `g0` and `keys`.
pub open spec fn adds_only(g0: Store, g1: Store, keys: Set<NodeKey>) -> bool {
    hashcons(g1).dom().subset_of(hashcons(g0).dom().union(keys))
}

/// The root of the class of the leaf `op` (meaningful when `g` holds it).
pub open spec fn leaf_root(g: Store, op: Seq<char>) -> nat {
    class_roots(g)[hashcons(g)[(op, Seq::<nat>::empty())]]
}

/// `g1` only adds to `g0`: it grows from it and every id of `g0` keeps its root.
pub open spec fn inserts(g0: Store, g1: Store) -> bool {
    &&& grows(g0, g1)
    &&& forall|k: nat| #[trigger] class_roots(g0).dom().contains(k) ==> class_roots(g1)[k] == class_roots(g0)[k]
}

/// `r` is the root of its class.
pub open spec fn is_root(g: Store, r: nat) -> bool {
    class_roots(g).dom().contains(r) && class_roots(g)[r] == r
}

pub proof fn lemma_inserts_trans(g0: Store, g1: Store, g2: Store)
    requires
        inserts(g0, g1),
        inserts(g1, g2),
    ensures
        inserts(g0, g2),
{
    lemma_grows_trans(g0, g1, g2);
}

/// After inserts only, a root id is in the class of an old id exactly when it
/// was already: so merging it in changes the store exactly when it was apart.
pub proof fn lemma_joined_before(g0: Store, g1: Store, m: nat, id: nat)
    requires
        store_wf(g0),
        inserts(g0, g1),
        is_root(g1, id),
        class_roots(g0).dom().contains(m),
    ensures
        same(g1, m, id) <==> (class_roots(g0).dom().contains(id) && same(g0, m, id)),
{
    let roots0 = class_roots(g0);
    let roots1 = class_roots(g1);
    assert(roots0.dom().contains(roots0[m]) && roots0[roots0[m]] == roots0[m]);
    if same(g1, m, id) {
        assert(roots1[m] == roots0[m]);
        assert(id == roots0[m]);
    }
}

pub proof fn lemma_grows_trans(g0: Store, g1: Store, g2: Store)
    requires
        grows(g0, g1),
        grows(g1, g2),
    ensures
        grows(g0, g2),
{
    let roots0 = class_roots(g0);
    let roots1 = class_roots(g1);
    let roots2 = class_roots(g2);
    assert forall|a: nat, b: nat|
        roots0.dom().contains(a) && roots0.dom().contains(b) && #[trigger] roots0[a] == #[trigger] roots0[b]
            implies roots2[a] == roots2[b] by {
        assert(roots1[a] == roots1[b]);
    }
    assert forall|k: NodeKey| #[trigger] hashcons(g0).dom().contains(k) implies hashcons(g2).dom().contains(k)
        && hashcons(g2)[k] == hashcons(g0)[k] by {
        assert(hashcons(g1).dom().contains(k));
    }
    assert(hashcons(g0).submap_of(hashcons(g2)));
}

} // verus!
