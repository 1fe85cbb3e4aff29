//! Graph facts about motifs: vertex and edge counts, completeness, the
//! edge-induced closure and the fully-induced super-pattern.

use vstd::prelude::*;
use factorial::Factorial;
use crate::model::Link;

verus! {

pub open spec fn fact(n: nat) -> nat
    decreases n,
{
    if n == 0 {
        1
    } else {
        n * fact((n - 1) as nat)
    }
}

/// Relies on factorial::Factorial::checked_factorial for `u64`: `n!` when it
/// fits in the type, `None` otherwise.
#[verifier::external_body]
fn checked_factorial(n: u64) -> (r: Option<u64>)
    ensures
        r == (if fact(n as nat) <= u64::MAX { Some(fact(n as nat) as u64) } else { None::<u64> }),
{
    n.checked_factorial()
}

proof fn lemma_fact_positive(n: nat)
    ensures
        fact(n) >= 1,
    decreases n,
{
    if n > 0 {
        lemma_fact_positive((n - 1) as nat);
        assert(n * fact((n - 1) as nat) >= 1) by (nonlinear_arith)
            requires
                n >= 1,
                fact((n - 1) as nat) >= 1,
        ;
    }
}

/// `n! / ((n - i)! i!)`, computed as the quotient of factorials; `None` when a
/// factorial or the product in the denominator does not fit in `u64`.
pub fn calculate_permutation(n: u64, i: u64) -> (r: Option<u64>)
    requires
        i <= n,
    ensures
        r is Some <==> fact(n as nat) <= u64::MAX && fact((n - i) as nat) * fact(i as nat) <= u64::MAX,
        r matches Some(v) ==> v == fact(n as nat) / (fact((n - i) as nat) * fact(i as nat)),
{
    if n > 20 {
        proof {
            reveal_with_fuel(fact, 22);
            assert(fact(21) > u64::MAX);
            lemma_fact_monotone(21, n as nat);
        }
        return None;
    }
    proof {
        lemma_fact_positive((n - i) as nat);
        lemma_fact_positive(i as nat);
        lemma_fact_monotone((n - i) as nat, n as nat);
        lemma_fact_monotone(i as nat, n as nat);
        assert(fact((n - i) as nat) * fact(i as nat) >= 1) by (nonlinear_arith)
            requires fact((n - i) as nat) >= 1, fact(i as nat) >= 1;
    }
    let a = match checked_factorial(n) {
        Some(a) => a,
        None => {
            return None;
        },
    };
    let b = checked_factorial(n - i).unwrap();
    let c = checked_factorial(i).unwrap();
    match b.checked_mul(c) {
        Some(d) => Some(a / d),
        None => None,
    }
}

proof fn lemma_fact_monotone(a: nat, b: nat)
    requires
        a <= b,
    ensures
        fact(a) <= fact(b),
    decreases b - a,
{
    if a < b {
        lemma_fact_monotone(a, (b - 1) as nat);
        lemma_fact_positive((b - 1) as nat);
        assert(b * fact((b - 1) as nat) >= fact((b - 1) as nat)) by (nonlinear_arith)
            requires b >= 1, fact((b - 1) as nat) >= 1;
    }
}

/// Every pair of `num_nodes` vertices is an edge: `num_edges` is
/// `num_nodes (num_nodes - 1) / 2`.
pub fn is_graph_complete(num_edges: u64, num_nodes: u64) -> (r: bool)
    ensures
        r == (num_edges == num_nodes * (num_nodes - 1) / 2),
{
    if num_nodes < 2 {
        proof {
            assert(num_nodes * (num_nodes - 1) == 0) by (nonlinear_arith)
                requires num_nodes < 2;
        }
        return num_edges == 0;
    }
    let n = num_nodes as u128;
    proof {
        assert(n * (n - 1) <= 0xffff_ffff_ffff_ffff * 0xffff_ffff_ffff_ffff) by (nonlinear_arith)
            requires n <= 0xffff_ffff_ffff_ffff, n >= 2;
    }
    let pairs = n * (n - 1) / 2;
    pairs == num_edges as u128
}

/// The number of vertices a motif spans: the largest vertex it names.
pub open spec fn spanned(links: Seq<Link>) -> nat
    decreases links.len(),
{
    if links.len() == 0 {
        0
    } else {
        let l = links.last();
        let m = spanned(links.drop_last());
        let top = if l.u >= l.v { l.u as nat } else { l.v as nat };
        if top >= m {
            top
        } else {
            m
        }
    }
}

/// The number of pairs that count as edges: all of them in the fully-induced
/// super-pattern (`anti_as_edge`), the edges alone in the edge-induced closure.
pub open spec fn edges_in(links: Seq<Link>, anti_as_edge: bool) -> nat
    decreases links.len(),
{
    if links.len() == 0 {
        0
    } else {
        edges_in(links.drop_last(), anti_as_edge) + if anti_as_edge || !links.last().anti { 1nat } else { 0nat }
    }
}

pub fn get_num_nodes(links: &Vec<Link>) -> (r: usize)
    ensures
        r as nat == spanned(links@),
{
    let mut m: usize = 0;
    let mut i: usize = 0;
    while i < links.len()
        invariant
            i <= links.len(),
            m as nat == spanned(links@.take(i as int)),
        decreases links.len() - i,
    {
        let l = links[i];
        let top = if l.u >= l.v { l.u } else { l.v };
        proof {
            assert(links@.take(i + 1).drop_last() == links@.take(i as int));
        }
        if top >= m {
            m = top;
        }
        i = i + 1;
    }
    proof {
        assert(links@.take(links.len() as int) == links@);
    }
    m
}

pub fn count_edges(links: &Vec<Link>, anti_as_edge: bool) -> (r: u64)
    requires
        links.len() <= u64::MAX,
    ensures
        r as nat == edges_in(links@, anti_as_edge),
{
    let mut n: u64 = 0;
    let mut i: usize = 0;
    while i < links.len()
        invariant
            i <= links.len(),
            links.len() <= u64::MAX,
            n as nat == edges_in(links@.take(i as int), anti_as_edge),
            n <= i,
        decreases links.len() - i,
    {
        proof {
            assert(links@.take(i + 1).drop_last() == links@.take(i as int));
        }
        if anti_as_edge || !links[i].anti {
            n = n + 1;
        }
        i = i + 1;
    }
    proof {
        assert(links@.take(links.len() as int) == links@);
    }
    n
}

/// The motif states no non-edge: it is its own edge-induced closure.
pub fn is_edge_induced(links: &Vec<Link>) -> (r: bool)
    ensures
        r == (forall|i: int| 0 <= i < links.len() ==> !(#[trigger] links@[i]).anti),
{
    let mut i: usize = 0;
    while i < links.len()
        invariant
            i <= links.len(),
            forall|j: int| 0 <= j < i ==> !(#[trigger] links@[j]).anti,
        decreases links.len() - i,
    {
        if links[i].anti {
            return false;
        }
        i = i + 1;
    }
    true
}

} // verus!
