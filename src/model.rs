//! The term algebra: motifs, provenance tags, formula constants, and the trees
//! the store holds for each kind of term.

use vstd::prelude::*;
use crate::term::{leaf, node2, Tree};
use crate::text::{int_text, label};

verus! {

/// One vertex pair of a motif (vertices count from 1): an edge, or an explicit
/// non-edge when `anti` is set.
#[derive(Clone, Copy, Debug, PartialEq, Eq, Structural)]
pub struct Link {
    pub u: usize,
    pub v: usize,
    pub anti: bool,
}

/// The closed-form constants that shortcuts and collapses refer to. `F0` is zero.
#[derive(Clone, Copy, Debug, PartialEq, Eq, Structural)]
pub enum Formula {
    F0,
    F1,
    F2,
    F3,
    F4,
    F5,
    F6,
    F7,
    F9,
    F10,
    F11,
    F14,
    Fa,
    Fb,
    Fc,
    Fe,
}

pub open spec fn formula_text(f: Formula) -> Seq<char> {
    match f {
        Formula::F0 => "F0"@,
        Formula::F1 => "F1"@,
        Formula::F2 => "F2"@,
        Formula::F3 => "F3"@,
        Formula::F4 => "F4"@,
        Formula::F5 => "F5"@,
        Formula::F6 => "F6"@,
        Formula::F7 => "F7"@,
        Formula::F9 => "F9"@,
        Formula::F10 => "F10"@,
        Formula::F11 => "F11"@,
        Formula::F14 => "F14"@,
        Formula::Fa => "Fa"@,
        Formula::Fb => "Fb"@,
        Formula::Fc => "Fc"@,
        Formula::Fe => "Fe"@,
    }
}

/// The name of a formula constant.
pub fn formula_name(f: Formula) -> (r: &'static str)
    ensures
        r@ == formula_text(f),
{
    match f {
        Formula::F0 => "F0",
        Formula::F1 => "F1",
        Formula::F2 => "F2",
        Formula::F3 => "F3",
        Formula::F4 => "F4",
        Formula::F5 => "F5",
        Formula::F6 => "F6",
        Formula::F7 => "F7",
        Formula::F9 => "F9",
        Formula::F10 => "F10",
        Formula::F11 => "F11",
        Formula::F14 => "F14",
        Formula::Fa => "Fa",
        Formula::Fb => "Fb",
        Formula::Fc => "Fc",
        Formula::Fe => "Fe",
    }
}

pub open spec fn num_tree(n: int) -> Tree {
    leaf(int_text(n))
}

pub open spec fn link_op(l: Link) -> Seq<char> {
    if l.anti {
        "!-"@
    } else {
        "--"@
    }
}

pub open spec fn link_tree(l: Link) -> Tree {
    node2(link_op(l), leaf(label(l.u as nat)), leaf(label(l.v as nat)))
}

pub open spec fn motif_tree(links: Seq<Link>) -> Tree {
    Tree::Node("Match"@, links.map_values(|l: Link| link_tree(l)))
}

pub open spec fn pi_tree(p: Seq<u32>) -> Tree {
    Tree::Node("Pi"@, p.map_values(|i: u32| num_tree(i as int)))
}

pub open spec fn count_tree(n: int, t: Tree) -> Tree {
    node2("Count"@, num_tree(n), t)
}

pub open spec fn union_tree(a: Tree, b: Tree) -> Tree {
    node2("Union"@, a, b)
}

pub open spec fn morph_tree(pi: Tree, m: Tree) -> Tree {
    node2("Morph"@, pi, m)
}

pub open spec fn const_tree(pi: Tree, f: Formula) -> Tree {
    node2("Const"@, pi, leaf(formula_text(f)))
}

/// The text of one pair: ` (-- a b)` or ` (!- a b)`.
pub open spec fn link_text(l: Link) -> Seq<char> {
    " ("@ + link_op(l) + " "@ + label(l.u as nat) + " "@ + label(l.v as nat) + ")"@
}

pub open spec fn links_text(links: Seq<Link>) -> Seq<char>
    decreases links.len(),
{
    if links.len() == 0 {
        Seq::empty()
    } else {
        links_text(links.drop_last()) + link_text(links.last())
    }
}

/// The surface text of a motif, `(Match (-- a b) (!- a c))`: the key under which
/// its cost is recorded.
pub open spec fn motif_text(links: Seq<Link>) -> Seq<char> {
    "(Match"@ + links_text(links) + ")"@
}

} // verus!
