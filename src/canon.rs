//! Relabelling an input motif into the canonical vertex order the
//! canonicalizer found, so that isomorphic inputs become one term.

use vstd::prelude::*;
use crate::model::Link;
use crate::morph::{rows_view, square};
use crate::parse::zero_matrix;
use crate::text::{int_text, text_to_int};

verus! {

/// The pair `{u, v}` of vertices (counting from 1) that a link joins, as
/// 0-based matrix indices.
pub open spec fn joins(l: Link, i: int, j: int) -> bool {
    (l.u - 1 == i && l.v - 1 == j) || (l.u - 1 == j && l.v - 1 == i)
}

/// The adjacency matrix of a motif's edges on `n` vertices (non-edges left out).
pub open spec fn adjacency_of(links: Seq<Link>, n: nat, adj: Seq<Seq<u8>>) -> bool {
    &&& adj.len() == n
    &&& square(adj)
    &&& forall|i: int, j: int| 0 <= i < n && 0 <= j < n ==> ((#[trigger] adj[i][j] == 1) <==> exists|k: int|
        0 <= k < links.len() && !links[k].anti && joins(#[trigger] links[k], i, j))
    &&& forall|i: int, j: int| 0 <= i < n && 0 <= j < n ==> (#[trigger] adj[i][j] == 0 || adj[i][j] == 1)
}

pub open spec fn within(links: Seq<Link>, n: nat) -> bool {
    forall|k: int| 0 <= k < links.len() ==> 1 <= (#[trigger] links[k]).u <= n && 1 <= links[k].v <= n
}

/// The adjacency matrix of the motif's edges on `n` vertices.
pub fn adjacency(links: &Vec<Link>, n: usize) -> (r: Vec<Vec<u8>>)
    requires
        within(links@, n as nat),
    ensures
        adjacency_of(links@, n as nat, rows_view(r@)),
{
    let mut adj = zero_matrix(n);
    let mut k: usize = 0;
    while k < links.len()
        invariant
            k <= links.len(),
            within(links@, n as nat),
            adj.len() == n,
            square(rows_view(adj@)),
            forall|i: int, j: int| 0 <= i < n && 0 <= j < n ==> ((#[trigger] adj@[i]@[j] == 1) <==> exists|q: int|
                0 <= q < k && !links@[q].anti && joins(#[trigger] links@[q], i, j)),
            forall|i: int, j: int| 0 <= i < n && 0 <= j < n ==> (#[trigger] adj@[i]@[j] == 0 || adj@[i]@[j] == 1),
        decreases links.len() - k,
    {
        let l = links[k];
        if !l.anti {
            let u = l.u - 1;
            let v = l.v - 1;
            let ghost before = adj@;
            proof {
                assert(rows_view(adj@)[u as int] == adj@[u as int]@);
                assert(rows_view(adj@)[v as int] == adj@[v as int]@);
            }
            adj[u][v] = 1;
            adj[v][u] = 1;
            proof {
                assert forall|i: int| 0 <= i < rows_view(adj@).len() implies (#[trigger] rows_view(adj@)[i]).len() == rows_view(adj@).len() by {
                    assert(rows_view(adj@)[i] == adj@[i]@);
                    assert(rows_view(before)[i] == before[i]@);
                }
                assert forall|i: int, j: int| 0 <= i < n && 0 <= j < n implies ((#[trigger] adj@[i]@[j] == 1) <==> exists|q: int|
                    0 <= q < k + 1 && !links@[q].anti && joins(#[trigger] links@[q], i, j)) by {
                    if joins(l, i, j) {
                        assert(!links@[k as int].anti && joins(links@[k as int], i, j));
                    } else {
                        assert(adj@[i]@[j] == before[i]@[j]);
                        if exists|q: int| 0 <= q < k + 1 && !links@[q].anti && joins(#[trigger] links@[q], i, j) {
                            let q = choose|q: int| 0 <= q < k + 1 && !links@[q].anti && joins(#[trigger] links@[q], i, j);
                            assert(q < k);
                        }
                    }
                }
                assert forall|i: int, j: int| 0 <= i < n && 0 <= j < n implies (#[trigger] adj@[i]@[j] == 0 || adj@[i]@[j] == 1) by {
                    if !joins(l, i, j) {
                        assert(adj@[i]@[j] == before[i]@[j]);
                    }
                }
            }
        } else {
            proof {
                assert forall|i: int, j: int| 0 <= i < n && 0 <= j < n implies ((#[trigger] adj@[i]@[j] == 1) <==> exists|q: int|
                    0 <= q < k + 1 && !links@[q].anti && joins(#[trigger] links@[q], i, j)) by {
                    if exists|q: int| 0 <= q < k + 1 && !links@[q].anti && joins(#[trigger] links@[q], i, j) {
                        let q = choose|q: int| 0 <= q < k + 1 && !links@[q].anti && joins(#[trigger] links@[q], i, j);
                        assert(q < k);
                    }
                }
            }
        }
        k = k + 1;
    }
    proof {
        assert forall|i: int, j: int| 0 <= i < n && 0 <= j < n implies (#[trigger] rows_view(adj@)[i][j] == 1) <==> exists|q: int|
            0 <= q < links.len() && !links@[q].anti && joins(#[trigger] links@[q], i, j) by {
            assert(rows_view(adj@)[i] == adj@[i]@);
        }
        assert forall|i: int, j: int| 0 <= i < n && 0 <= j < n implies (#[trigger] rows_view(adj@)[i][j] == 0 || rows_view(adj@)[i][j] == 1) by {
            assert(rows_view(adj@)[i] == adj@[i]@);
        }
    }
    adj
}

/// The motif states a non-edge between the 1-based vertices `a` and `b`.
pub open spec fn states_anti(links: Seq<Link>, a: int, b: int) -> bool {
    exists|k: int| 0 <= k < links.len() && links[k].anti && (#[trigger] links[k]).u == a && links[k].v == b
}

/// The link of the canonical motif at the 1-based pair `(i, j)`, given the
/// permutation `perm` (canonical 0-based vertex to input 0-based vertex).
pub open spec fn permuted_link(adj: Seq<Seq<u8>>, links: Seq<Link>, perm: Seq<usize>, i: nat, j: nat) -> Option<Link> {
    let a = perm[i - 1] as int;
    let b = perm[j - 1] as int;
    if adj[a][b] == 1 {
        Some(Link { u: i as usize, v: j as usize, anti: false })
    } else if states_anti(links, a + 1, b + 1) || states_anti(links, b + 1, a + 1) {
        Some(Link { u: i as usize, v: j as usize, anti: true })
    } else {
        None
    }
}

pub open spec fn permuted_row(adj: Seq<Seq<u8>>, links: Seq<Link>, perm: Seq<usize>, i: nat, j: nat) -> Seq<Link>
    decreases j,
{
    if j <= i + 1 {
        Seq::empty()
    } else {
        let before = permuted_row(adj, links, perm, i, (j - 1) as nat);
        match permuted_link(adj, links, perm, i, (j - 1) as nat) {
            Some(l) => before.push(l),
            None => before,
        }
    }
}

pub open spec fn permuted_rows(adj: Seq<Seq<u8>>, links: Seq<Link>, perm: Seq<usize>, i: nat) -> Seq<Link>
    decreases i,
{
    if i <= 1 {
        Seq::empty()
    } else {
        permuted_rows(adj, links, perm, (i - 1) as nat) + permuted_row(adj, links, perm, (i - 1) as nat, perm.len() + 1)
    }
}

/// The input motif relabelled by `perm`, pairs in lexicographic order: an edge
/// where the input vertices are joined, a non-edge where the motif states
/// one, nothing elsewhere.
pub open spec fn permuted_motif(adj: Seq<Seq<u8>>, links: Seq<Link>, perm: Seq<usize>) -> Seq<Link> {
    permuted_rows(adj, links, perm, perm.len() + 1)
}

fn states_anti_exec(links: &Vec<Link>, a: usize, b: usize) -> (r: bool)
    ensures
        r == states_anti(links@, a as int, b as int),
{
    let mut k: usize = 0;
    while k < links.len()
        invariant
            k <= links.len(),
            forall|q: int| 0 <= q < k ==> !(links@[q].anti && (#[trigger] links@[q]).u == a && links@[q].v == b),
        decreases links.len() - k,
    {
        if links[k].anti && links[k].u == a && links[k].v == b {
            return true;
        }
        k = k + 1;
    }
    false
}

/// Relabels the motif `links` (with edge adjacency `adj`) by the permutation
/// `perm`, whose entries must be vertices of `adj`.
pub fn permute_motif(adj: &Vec<Vec<u8>>, links: &Vec<Link>, perm: &Vec<usize>) -> (r: Vec<Link>)
    requires
        square(rows_view(adj@)),
        perm.len() < usize::MAX,
        forall|i: int| 0 <= i < perm.len() ==> (#[trigger] perm@[i]) < adj.len(),
        adj.len() < usize::MAX,
    ensures
        r@ == permuted_motif(rows_view(adj@), links@, perm@),
{
    let ghost a = rows_view(adj@);
    let n = perm.len();
    let mut r: Vec<Link> = Vec::new();
    let mut i: usize = 1;
    while i <= n
        invariant
            1 <= i <= n + 1,
            n == perm.len(),
            n < usize::MAX,
            adj.len() < usize::MAX,
            a == rows_view(adj@),
            square(a),
            forall|k: int| 0 <= k < perm.len() ==> (#[trigger] perm@[k]) < adj.len(),
            r@ == permuted_rows(a, links@, perm@, i as nat),
        decreases n + 1 - i,
    {
        let ghost start = r@;
        let mut j: usize = i + 1;
        while j <= n
            invariant
                1 <= i <= n,
                i + 1 <= j <= n + 1,
                n == perm.len(),
                n < usize::MAX,
                adj.len() < usize::MAX,
                a == rows_view(adj@),
                square(a),
                forall|k: int| 0 <= k < perm.len() ==> (#[trigger] perm@[k]) < adj.len(),
                r@ == start + permuted_row(a, links@, perm@, i as nat, j as nat),
            decreases n + 1 - j,
        {
            let pa = perm[i - 1];
            let pb = perm[j - 1];
            proof {
                assert(a[pa as int] == adj@[pa as int]@);
                assert(a[pa as int].len() == adj.len());
            }
            let ghost before = r@;
            if adj[pa][pb] == 1 {
                r.push(Link { u: i, v: j, anti: false });
            } else if states_anti_exec(links, pa + 1, pb + 1) || states_anti_exec(links, pb + 1, pa + 1) {
                r.push(Link { u: i, v: j, anti: true });
            }
            proof {
                assert(permuted_row(a, links@, perm@, i as nat, (j + 1) as nat) == match permuted_link(a, links@, perm@, i as nat, j as nat) {
                    Some(l) => permuted_row(a, links@, perm@, i as nat, j as nat).push(l),
                    None => permuted_row(a, links@, perm@, i as nat, j as nat),
                });
                assert(r@ =~= start + permuted_row(a, links@, perm@, i as nat, (j + 1) as nat));
            }
            j = j + 1;
        }
        proof {
            assert(permuted_rows(a, links@, perm@, (i + 1) as nat) == permuted_rows(a, links@, perm@, i as nat) + permuted_row(a, links@, perm@, i as nat, (n + 1) as nat));
        }
        i = i + 1;
    }
    r
}

/// Line `l` gives canonical vertex `k` the input vertex `v`: its first two
/// words are their decimal texts, both below `n` (and within `i64`).
pub open spec fn pair_line(lines: Seq<Vec<String>>, l: int, n: nat, k: int, v: int) -> bool {
    &&& lines[l]@.len() >= 2
    &&& lines[l]@[0]@ == int_text(k)
    &&& lines[l]@[1]@ == int_text(v)
    &&& 0 <= k < n
    &&& 0 <= v < n
    &&& k <= i64::MAX
    &&& v <= i64::MAX
}

/// The value the last line before `upto` gives to `k`, if one does.
pub open spec fn given(lines: Seq<Vec<String>>, n: nat, k: int, upto: int) -> Option<int>
    decreases upto,
{
    if upto <= 0 {
        None
    } else if exists|v: int| #[trigger] pair_line(lines, upto - 1, n, k, v) {
        Some(choose|v: int| #[trigger] pair_line(lines, upto - 1, n, k, v))
    } else {
        given(lines, n, k, upto - 1)
    }
}

/// Reads the canonicalizer's vertex permutation for an `n`-vertex motif from
/// the words of its file's lines, `k v` meaning canonical vertex `k` is input
/// vertex `v` (both from 0, below `n`); the last such line for `k` counts, and
/// other lines are skipped. Every vertex must be given a value.
pub fn read_permutation(lines: &Vec<Vec<String>>, n: usize) -> (r: Option<Vec<usize>>)
    ensures
        r matches Some(p) ==> p.len() == n
            && forall|k: int| 0 <= k < n ==> given(lines@, n as nat, k, lines.len() as int) == Some((#[trigger] p@[k]) as int),
        (forall|k: int| 0 <= k < n ==> (#[trigger] given(lines@, n as nat, k, lines.len() as int)) is Some) ==> r is Some,
{
    let mut p: Vec<usize> = Vec::new();
    let mut set: Vec<bool> = Vec::new();
    let mut i: usize = 0;
    while i < n
        invariant
            i <= n,
            p.len() == i,
            set.len() == i,
            forall|k: int| 0 <= k < i ==> !(#[trigger] set@[k]),
        decreases n - i,
    {
        p.push(0);
        set.push(false);
        i = i + 1;
    }
    let mut l: usize = 0;
    while l < lines.len()
        invariant
            l <= lines.len(),
            p.len() == n,
            set.len() == n,
            forall|k: int| 0 <= k < n ==> (#[trigger] set@[k]) == given(lines@, n as nat, k, l as int) is Some,
            forall|k: int| 0 <= k < n && set@[k] ==> given(lines@, n as nat, k, l as int) == Some((#[trigger] p@[k]) as int),
        decreases lines.len() - l,
    {
        let ghost p0 = p@;
        let ghost s0 = set@;
        let mut hit: Option<(usize, usize)> = None;
        if lines[l].len() >= 2 {
            let key = text_to_int(lines[l][0].as_str());
            let value = text_to_int(lines[l][1].as_str());
            match (key, value) {
                (Some(k), Some(v)) => {
                    if 0 <= k && (k as u64) < n as u64 && 0 <= v && (v as u64) < n as u64 {
                        hit = Some((k as usize, v as usize));
                    }
                },
                _ => {},
            }
            proof {
                assert forall|k: int, v: int| 0 <= k < n && #[trigger] pair_line(lines@, l as int, n as nat, k, v) implies
                    hit == Some((k as usize, v as usize)) by {
                    assert(lines@[l as int]@[0]@ == int_text(((k as i64) as int)));
                    assert(lines@[l as int]@[1]@ == int_text(((v as i64) as int)));
                    let kk = key.unwrap();
                    let vv = value.unwrap();
                    crate::text::lemma_int_text_injective(kk as int, k);
                    crate::text::lemma_int_text_injective(vv as int, v);
                }
            }
        }
        match hit {
            Some((k, v)) => {
                p.set(k, v);
                set.set(k, true);
                proof {
                    assert(pair_line(lines@, l as int, n as nat, k as int, v as int)) by {
                        assert(lines@[l as int]@[0]@ == lines[l as int][0]@);
                    }
                    assert forall|q: int| 0 <= q < n implies (#[trigger] set@[q]) == given(lines@, n as nat, q, l + 1) is Some
                        && (set@[q] ==> given(lines@, n as nat, q, l + 1) == Some(p@[q] as int)) by {
                        if q == k {
                            let w = choose|w: int| #[trigger] pair_line(lines@, l as int, n as nat, q, w);
                            crate::text::lemma_int_text_injective(w, v as int);
                        } else {
                            if exists|w: int| #[trigger] pair_line(lines@, l as int, n as nat, q, w) {
                                let w = choose|w: int| #[trigger] pair_line(lines@, l as int, n as nat, q, w);
                                crate::text::lemma_int_text_injective(q, k as int);
                            }
                        }
                    }
                }
            },
            None => {
                proof {
                    assert forall|q: int, w: int| 0 <= q < n implies !#[trigger] pair_line(lines@, l as int, n as nat, q, w) by {
                    }
                }
            },
        }
        l = l + 1;
    }
    let mut k: usize = 0;
    while k < n
        invariant
            k <= n,
            p.len() == n,
            set.len() == n,
            forall|q: int| 0 <= q < n ==> (#[trigger] set@[q]) == given(lines@, n as nat, q, lines.len() as int) is Some,
            forall|q: int| 0 <= q < n && set@[q] ==> given(lines@, n as nat, q, lines.len() as int) == Some((#[trigger] p@[q]) as int),
            forall|q: int| 0 <= q < k ==> #[trigger] set@[q],
        decreases n - k,
    {
        if !set[k] {
            return None;
        }
        k = k + 1;
    }
    Some(p)
}

} // verus!
