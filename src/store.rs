//! The congruence-closure store: an egg e-graph over `SymbolLang` nodes.
//!
//! A node is an operator string with a list of child class ids. The store is
//! modelled by two maps: `class_roots`, from every id handed out so far to the
//! root of its class, and `hashcons`, from each stored node (with the children
//! it was stored with) to an id of its class.

use vstd::prelude::*;
use egg::{EGraph, Id, SymbolLang};

verus! {

/// The store. It owns an egg e-graph whose nodes are `SymbolLang` nodes;
/// the saturation driver lends it to the rewrite rules.
// egg's `EGraph` cannot be declared to Verus (its trait bounds are refused),
// so the e-graph is held in this struct, which Verus sees as opaque.
#[verifier::external_body]
pub struct Store {
    pub graph: EGraph<SymbolLang, ()>,
}

/// A node as the store keys it: its operator and its children.
pub type NodeKey = (Seq<char>, Seq<nat>);

/// Every id handed out so far, mapped to the root of its class.
pub uninterp spec fn class_roots(g: Store) -> Map<nat, nat>;

/// The hash-cons: each stored node, with the children it was stored with,
/// mapped to an id of its class.
pub uninterp spec fn hashcons(g: Store) -> Map<NodeKey, nat>;

/// The nodes of each class, by root, in the order the store keeps them.
pub uninterp spec fn class_nodes(g: Store) -> Map<nat, Seq<NodeKey>>;

/// The node with its children replaced by their roots.
pub open spec fn canonical(roots: Map<nat, nat>, key: NodeKey) -> NodeKey {
    (key.0, key.1.map_values(|c: nat| roots[c]))
}

/// All children of the node are ids of the store.
pub open spec fn children_known(roots: Map<nat, nat>, children: Seq<nat>) -> bool {
    forall|i: int| 0 <= i < children.len() ==> roots.dom().contains(#[trigger] children[i])
}

/// The union-find is closed (roots are ids and their own roots) and the
/// hash-cons only points at ids of the store.
pub open spec fn roots_wf(roots: Map<nat, nat>, cons: Map<NodeKey, nat>) -> bool {
    &&& forall|k: nat| #[trigger] roots.dom().contains(k) ==> roots.dom().contains(roots[k]) && roots[roots[k]] == roots[k]
    &&& forall|key: NodeKey| #[trigger] cons.dom().contains(key) ==> roots.dom().contains(cons[key])
}

pub open spec fn store_wf(g: Store) -> bool {
    roots_wf(class_roots(g), hashcons(g))
}

/// `roots1` keeps every class of `roots0`, and any id it adds joins the class `r`.
pub open spec fn roots_extend(roots0: Map<nat, nat>, roots1: Map<nat, nat>, r: nat) -> bool {
    &&& roots0.dom().subset_of(roots1.dom())
    &&& forall|k: nat| #[trigger] roots1.dom().contains(k) ==> (if roots0.dom().contains(k) {
        roots1[k] == roots0[k]
    } else {
        roots1[k] == r
    })
}

/// What inserting the node `key` into `g0` does: `g1` is the store after, `r` the
/// id returned.
pub open spec fn inserted(g0: Store, key: NodeKey, g1: Store, r: nat) -> bool {
    let roots0 = class_roots(g0);
    let cons0 = hashcons(g0);
    let c = canonical(roots0, key);
    if cons0.dom().contains(c) {
        &&& r == roots0[cons0[c]]
        &&& hashcons(g1) == cons0
        &&& roots_extend(roots0, class_roots(g1), r)
    } else {
        &&& !roots0.dom().contains(r)
        &&& class_roots(g1) == roots0.insert(r, r)
        &&& hashcons(g1) == cons0.insert(c, r)
    }
}

/// What merging the classes of `a` and `b` does: `merged` is whether they were apart.
pub open spec fn unioned(g0: Store, a: nat, b: nat, g1: Store, merged: bool) -> bool {
    let roots0 = class_roots(g0);
    let roots1 = class_roots(g1);
    &&& merged == (roots0[a] != roots0[b])
    &&& hashcons(g1) == hashcons(g0)
    &&& roots1.dom() == roots0.dom()
    &&& (roots1[a] == roots0[a] || roots1[a] == roots0[b])
    &&& forall|k: nat| #[trigger] roots0.dom().contains(k) ==> (if roots0[k] == roots0[a] || roots0[k] == roots0[b] {
        roots1[k] == roots1[a]
    } else {
        roots1[k] == roots0[k]
    })
}

/// Relies on egg::EGraph::new: a fresh store holds no ids and no nodes.
#[verifier::external_body]
pub fn new_store() -> (r: Store)
    ensures
        class_roots(r).dom().is_empty(),
        hashcons(r).dom().is_empty(),
{
    Store { graph: EGraph::new(()) }
}

/// Relies on egg::EGraph::add: the node's children are mapped to their roots,
/// and a node already in the hash-cons gives the root of its class; otherwise a
/// new class is made for it. With explanations on, a hit also hands out fresh
/// ids, each joined to that root.
#[verifier::external_body]
pub fn store_add(g: &mut Store, op: &str, children: &Vec<usize>) -> (r: usize)
    requires
        children_known(class_roots(*old(g)), children@.map_values(|c: usize| c as nat)),
    ensures
        inserted(*old(g), (op@, children@.map_values(|c: usize| c as nat)), *final(g), r as nat),
{
    usize::from(g.graph.add(SymbolLang::new(op, children.iter().map(|c| Id::from(*c)).collect())))
}

/// Relies on egg::EGraph::union: the two classes become one, rooted at one of
/// the two old roots; the result says whether they were apart.
#[verifier::external_body]
pub fn store_union(g: &mut Store, a: usize, b: usize) -> (merged: bool)
    requires
        class_roots(*old(g)).dom().contains(a as nat),
        class_roots(*old(g)).dom().contains(b as nat),
    ensures
        unioned(*old(g), a as nat, b as nat, *final(g), merged),
{
    g.graph.union(Id::from(a), Id::from(b))
}

/// Relies on egg's indexing of `EGraph` by id and on `EClass::nodes`: the first
/// node that the class of `a` keeps. Its children are ids of the store, as
/// `EGraph::add` only takes nodes over existing ids.
#[verifier::external_body]
pub fn store_node(g: &Store, a: usize) -> (r: (String, Vec<usize>))
    requires
        class_roots(*g).dom().contains(a as nat),
    ensures
        (r.0@, r.1@.map_values(|c: usize| c as nat)) == class_nodes(*g)[class_roots(*g)[a as nat]][0],
        children_known(class_roots(*g), r.1@.map_values(|c: usize| c as nat)),
{
    let n = &g.graph[Id::from(a)].nodes[0];
    (n.op.as_str().to_string(), n.children.iter().map(|c| usize::from(*c)).collect())
}

} // verus!
