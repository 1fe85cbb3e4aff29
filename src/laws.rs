//! Laws of the store and of the rules, proved from their contracts.

use vstd::prelude::*;
use crate::model::{const_tree, count_tree, Formula};
use crate::rules::dedup_tree;
use crate::store::{canonical, children_known, class_roots, hashcons, inserted, store_wf, NodeKey, Store};
use crate::term::{again, found, lookup, Tree};

verus! {

/// Inserting the same node twice gives the same class, and the second
/// insertion leaves the hash-cons as it was.
pub proof fn law_insert_twice(g0: Store, key: NodeKey, g1: Store, r1: nat, g2: Store, r2: nat)
    requires
        store_wf(g0),
        children_known(class_roots(g0), key.1),
        inserted(g0, key, g1, r1),
        inserted(g1, key, g2, r2),
    ensures
        r1 == r2,
        hashcons(g2) == hashcons(g1),
{
    let roots0 = class_roots(g0);
    let roots1 = class_roots(g1);
    let c = canonical(roots0, key);
    assert(canonical(roots1, key) =~= c) by {
        assert forall|i: int| 0 <= i < key.1.len() implies roots1[key.1[i]] == roots0[#[trigger] key.1[i]] by {
            assert(roots0.dom().contains(key.1[i]));
        }
    }
    assert(hashcons(g1).dom().contains(c));
    if hashcons(g0).dom().contains(c) {
        assert(roots0.dom().contains(hashcons(g0)[c]));
        assert(roots0.dom().contains(roots0[hashcons(g0)[c]]));
    }
}

/// Inserting a term the store already holds (as the builders that return `r1`
/// state it: found with fuel `d`) gives the same class and adds no node: the
/// builders' `again` clause then pins the second result.
pub proof fn law_insert_term_twice(g1: Store, g2: Store, t: Tree, d: nat, r1: nat, r2: nat)
    requires
        found(g1, t, d, r1),
        again(g1, g2, t, d, r2),
    ensures
        r2 == r1,
        hashcons(g2) == hashcons(g1),
{
    assert(lookup(g1, t, d) == Some(r1));
}

/// Two counts of one body under one tag that cancel collapse to one count of
/// the zero constant `F0` under that tag, whatever the body.
pub proof fn law_zero_collapse(n: int, p: Seq<u32>, q: Seq<u32>, pi: nat, body: nat, morph: bool)
    ensures
        dedup_tree(n + (-n), p, p, q, pi, body, morph) == count_tree(1, const_tree(Tree::Class(pi), Formula::F0)),
{
}

} // verus!
