//! Closed-form constants of a data graph, from vertex degrees and triangles,
//! behind the shortcut formulas. The graph is an adjacency list: entry `v`
//! lists the neighbours of vertex `v`.

use vstd::prelude::*;

verus! {

pub type Adjacency = Seq<Seq<usize>>;

pub open spec fn adj_view(adj: Seq<Vec<usize>>) -> Adjacency {
    adj.map_values(|r: Vec<usize>| r@)
}

/// Every neighbour is a vertex of the graph.
pub open spec fn closed(g: Adjacency) -> bool {
    forall|v: int, k: int| 0 <= v < g.len() && 0 <= k < g[v].len() ==> (#[trigger] g[v][k]) < g.len()
}

pub open spec fn total(s: Seq<nat>) -> nat
    decreases s.len(),
{
    if s.len() == 0 {
        0
    } else {
        total(s.drop_last()) + s.last()
    }
}

pub proof fn lemma_total_prefix(s: Seq<nat>, k: int)
    requires
        0 <= k <= s.len(),
    ensures
        total(s.take(k)) <= total(s),
        k < s.len() ==> total(s.take(k)) + s[k] <= total(s),
    decreases s.len() - k,
{
    if k < s.len() {
        lemma_total_prefix(s, k + 1);
        assert(s.take(k + 1).drop_last() == s.take(k));
    } else {
        assert(s.take(k) == s);
    }
}

proof fn lemma_total_step(s: Seq<nat>, k: int)
    requires
        0 <= k < s.len(),
    ensures
        total(s.take(k + 1)) == total(s.take(k)) + s[k],
{
    assert(s.take(k + 1).drop_last() == s.take(k));
}

/// `d` choose 4.
pub open spec fn choose4(d: nat) -> nat {
    if d > 3 {
        (d * (d - 1) * (d - 2) * (d - 3) / 24) as nat
    } else {
        0
    }
}

/// Four-stars: the sum over vertices of their degree choose 4.
pub open spec fn n1_terms(g: Adjacency) -> Seq<nat> {
    Seq::new(g.len(), |v: int| choose4(g[v].len()))
}

/// Sums `terms(k)` for `k < n` with overflow checks; `None` exactly when the
/// sum does not fit in `u64`.
fn sum_terms(n: usize, Ghost(terms): Ghost<Seq<nat>>, vals: &Vec<Option<u64>>) -> (r: Option<u64>)
    requires
        terms.len() == n,
        vals.len() == n,
        forall|k: int| 0 <= k < n ==> match #[trigger] vals@[k] {
            Some(x) => x == terms[k],
            None => terms[k] > u64::MAX,
        },
    ensures
        r matches Some(x) ==> x == total(terms),
        r is None <==> total(terms) > u64::MAX,
{
    let mut acc: u64 = 0;
    let mut k: usize = 0;
    while k < n
        invariant
            k <= n,
            terms.len() == n,
            vals.len() == n,
            forall|q: int| 0 <= q < n ==> match #[trigger] vals@[q] {
                Some(x) => x == terms[q],
                None => terms[q] > u64::MAX,
            },
            acc == total(terms.take(k as int)),
        decreases n - k,
    {
        proof {
            lemma_total_prefix(terms, k as int);
            lemma_total_step(terms, k as int);
        }
        match vals[k] {
            Some(x) => match acc.checked_add(x) {
                Some(s) => {
                    acc = s;
                },
                None => {
                    return None;
                },
            },
            None => {
                return None;
            },
        }
        k = k + 1;
    }
    proof {
        assert(terms.take(n as int) == terms);
    }
    Some(acc)
}

proof fn lemma_four_factors(d: int, a: int)
    requires
        a >= 0,
        d - 3 >= a,
    ensures
        d * (d - 1) * (d - 2) * (d - 3) >= a * a * a * a,
{
    assert(d * (d - 1) >= a * a) by (nonlinear_arith)
        requires d - 3 >= a, a >= 0;
    assert(d * (d - 1) * (d - 2) >= a * a * a) by (nonlinear_arith)
        requires d * (d - 1) >= a * a, d - 2 >= a, a >= 0;
    assert(d * (d - 1) * (d - 2) * (d - 3) >= a * a * a * a) by (nonlinear_arith)
        requires d * (d - 1) * (d - 2) >= a * a * a, d - 3 >= a, a >= 0;
}

fn choose4_exec(d: usize) -> (r: Option<u64>)
    ensures
        r matches Some(x) ==> x == choose4(d as nat),
        r is None ==> choose4(d as nat) > u64::MAX,
{
    if d <= 3 {
        return Some(0);
    }
    if d > 0x40003 {
        proof {
            lemma_four_factors(d as int, 0x40001);
            assert(0x40001 * 0x40001 * 0x40001 * 0x40001 > 24 * 0x1_0000_0000_0000_0000) by (nonlinear_arith);
        }
        return None;
    }
    let x = d as u128;
    proof {
        assert(x * (x - 1) <= 0x40003 * 0x40003) by (nonlinear_arith)
            requires x <= 0x40003, x > 3;
        assert(x * (x - 1) * (x - 2) <= 0x40003 * 0x40003 * 0x40003) by (nonlinear_arith)
            requires x * (x - 1) <= 0x40003 * 0x40003, x <= 0x40003, x > 3;
        assert(x * (x - 1) * (x - 2) * (x - 3) <= 0x40003 * 0x40003 * 0x40003 * 0x40003) by (nonlinear_arith)
            requires x * (x - 1) * (x - 2) <= 0x40003 * 0x40003 * 0x40003, x <= 0x40003, x > 3;
    }
    let p = x * (x - 1) * (x - 2) * (x - 3);
    let q = p / 24;
    if q > u64::MAX as u128 {
        None
    } else {
        Some(q as u64)
    }
}

/// The four-star constant: the sum over vertices of their degree choose 4;
/// `None` exactly when it does not fit in `u64`.
pub fn compute_n1_constant(adj: &Vec<Vec<usize>>) -> (r: Option<u64>)
    ensures
        r matches Some(x) ==> x == total(n1_terms(adj_view(adj@))),
        r is None <==> total(n1_terms(adj_view(adj@))) > u64::MAX,
{
    let ghost g = adj_view(adj@);
    let mut vals: Vec<Option<u64>> = Vec::new();
    let mut v: usize = 0;
    while v < adj.len()
        invariant
            v <= adj.len(),
            g == adj_view(adj@),
            vals.len() == v,
            forall|k: int| 0 <= k < v ==> match #[trigger] vals@[k] {
                Some(x) => x == n1_terms(g)[k],
                None => n1_terms(g)[k] > u64::MAX,
            },
        decreases adj.len() - v,
    {
        proof {
            assert(g[v as int] == adj@[v as int]@);
        }
        vals.push(choose4_exec(adj[v].len()));
        v = v + 1;
    }
    sum_terms(adj.len(), Ghost(n1_terms(g)), &vals)
}

/// The number of triangles at `v`: pairs `a < b` of its neighbour slots whose
/// vertices are adjacent (`g[v][b]` is listed among the neighbours of `g[v][a]`).
pub open spec fn triangles_at(g: Adjacency, v: int) -> nat {
    total(Seq::new(g[v].len(), |a: int|
        total(Seq::new(g[v].len(), |b: int| if a < b && g[g[v][a] as int].contains(g[v][b]) { 1nat } else { 0nat }))))
}

/// Pairs of triangles sharing a vertex: over vertices, `t (t - 1) / 2` for its
/// triangle count `t`.
pub open spec fn n9_terms(g: Adjacency) -> Seq<nat> {
    Seq::new(g.len(), |v: int| pairs_of(triangles_at(g, v)))
}

/// `t` choose 2.
pub open spec fn pairs_of(t: nat) -> nat {
    if t > 1 {
        (t * (t - 1) / 2) as nat
    } else {
        0
    }
}

fn contains_vertex(list: &Vec<usize>, x: usize) -> (r: bool)
    ensures
        r == list@.contains(x),
{
    let mut k: usize = 0;
    while k < list.len()
        invariant
            k <= list.len(),
            forall|q: int| 0 <= q < k ==> list@[q] != x,
        decreases list.len() - k,
    {
        if list[k] == x {
            proof {
                assert(list@[k as int] == x);
            }
            return true;
        }
        k = k + 1;
    }
    false
}

fn triangles_exec(adj: &Vec<Vec<usize>>, v: usize) -> (r: u64)
    requires
        closed(adj_view(adj@)),
        v < adj.len(),
        adj@[v as int].len() <= 0xffff_ffff,
    ensures
        r == triangles_at(adj_view(adj@), v as int),
{
    let ghost g = adj_view(adj@);
    proof {
        assert(g[v as int] == adj@[v as int]@);
    }
    let nb = &adj[v];
    let d = nb.len();
    let ghost outer = Seq::new(g[v as int].len(), |a: int|
        total(Seq::new(g[v as int].len(), |b: int| if a < b && g[g[v as int][a] as int].contains(g[v as int][b]) { 1nat } else { 0nat })));
    let mut t: u64 = 0;
    let mut a: usize = 0;
    while a < d
        invariant
            a <= d,
            d == nb.len(),
            d <= 0xffff_ffff,
            nb@ == g[v as int],
            g == adj_view(adj@),
            closed(g),
            v < adj.len(),
            outer == Seq::new(g[v as int].len(), |a: int|
                total(Seq::new(g[v as int].len(), |b: int| if a < b && g[g[v as int][a] as int].contains(g[v as int][b]) { 1nat } else { 0nat }))),
            t == total(outer.take(a as int)),
            t <= a * d,
        decreases d - a,
    {
        let ghost inner = Seq::new(g[v as int].len(), |b: int| if a < b && g[g[v as int][a as int] as int].contains(g[v as int][b]) { 1nat } else { 0nat });
        let u = nb[a];
        proof {
            assert(g[u as int] == adj@[u as int]@);
        }
        let mut c: u64 = 0;
        let mut b: usize = 0;
        while b < d
            invariant
                b <= d,
                a < d,
                d == nb.len(),
                d <= 0xffff_ffff,
                nb@ == g[v as int],
                g == adj_view(adj@),
                u == nb@[a as int],
                u < adj.len(),
                g[u as int] == adj@[u as int]@,
                inner == Seq::new(g[v as int].len(), |b: int| if a < b && g[g[v as int][a as int] as int].contains(g[v as int][b]) { 1nat } else { 0nat }),
                c == total(inner.take(b as int)),
                c <= b,
            decreases d - b,
        {
            proof {
                lemma_total_step(inner, b as int);
            }
            if a < b && contains_vertex(&adj[u], nb[b]) {
                c = c + 1;
            }
            b = b + 1;
        }
        proof {
            assert(inner.take(d as int) == inner);
            assert(outer[a as int] == total(inner));
            lemma_total_step(outer, a as int);
            assert(t + c <= (a + 1) * d) by (nonlinear_arith)
                requires t <= a * d, c <= d;
            assert((a + 1) * d <= 0xffff_ffff * 0xffff_ffff) by (nonlinear_arith)
                requires a < d, d <= 0xffff_ffff;
        }
        t = t + c;
        a = a + 1;
    }
    proof {
        assert(outer.take(d as int) == outer);
    }
    t
}

/// Pairs of triangles that share a vertex; `None` exactly when the sum does
/// not fit in `u64`. Every neighbour must be a vertex, and no vertex may list
/// more than `u32::MAX` neighbours.
pub fn compute_n9_constant(adj: &Vec<Vec<usize>>) -> (r: Option<u64>)
    requires
        closed(adj_view(adj@)),
        forall|v: int| 0 <= v < adj.len() ==> (#[trigger] adj@[v]).len() <= 0xffff_ffff,
    ensures
        r matches Some(x) ==> x == total(n9_terms(adj_view(adj@))),
        r is None <==> total(n9_terms(adj_view(adj@))) > u64::MAX,
{
    let ghost g = adj_view(adj@);
    let mut vals: Vec<Option<u64>> = Vec::new();
    let mut v: usize = 0;
    while v < adj.len()
        invariant
            v <= adj.len(),
            g == adj_view(adj@),
            closed(g),
            forall|q: int| 0 <= q < adj.len() ==> (#[trigger] adj@[q]).len() <= 0xffff_ffff,
            vals.len() == v,
            forall|k: int| 0 <= k < v ==> match #[trigger] vals@[k] {
                Some(x) => x == n9_terms(g)[k],
                None => n9_terms(g)[k] > u64::MAX,
            },
        decreases adj.len() - v,
    {
        let t = triangles_exec(adj, v);
        let term = if t > 1 {
            proof {
                assert((t as u128) * ((t - 1) as u128) <= 0xffff_ffff_ffff_ffff * 0xffff_ffff_ffff_ffff) by (nonlinear_arith)
                    requires t <= 0xffff_ffff_ffff_ffff, t > 1;
            }
            let p = (t as u128) * ((t - 1) as u128) / 2;
            if p > u64::MAX as u128 { None } else { Some(p as u64) }
        } else {
            Some(0)
        };
        vals.push(term);
        v = v + 1;
    }
    sum_terms(adj.len(), Ghost(n9_terms(g)), &vals)
}

} // verus!

verus! {

pub open spec fn deg(g: Adjacency, v: usize) -> nat {
    g[v as int].len()
}

/// `a * b * c`, exactly; `None` exactly when it does not fit in `u64`.
fn mul3(a: u64, b: u64, c: u64) -> (r: Option<u64>)
    ensures
        r matches Some(x) ==> x == a * b * c,
        r is None <==> a * b * c > u64::MAX,
{
    if a == 0 || b == 0 || c == 0 {
        proof {
            assert(a * b * c == 0) by (nonlinear_arith)
                requires a == 0 || b == 0 || c == 0;
        }
        return Some(0);
    }
    match a.checked_mul(b) {
        Some(ab) => {
            match ab.checked_mul(c) {
                Some(x) => Some(x),
                None => None,
            }
        },
        None => {
            proof {
                assert(a * b * c >= a * b) by (nonlinear_arith)
                    requires c >= 1, a >= 1, b >= 1;
            }
            None
        },
    }
}

/// Two-paths hanging off a three-star: over vertices `i` of degree above 2 and
/// their neighbours `j` of degree above 1, `(deg j - 1) * C(deg i - 1, 2)`.
pub open spec fn n2_terms(g: Adjacency) -> Seq<nat> {
    Seq::new(g.len(), |i: int| {
        let di = g[i].len();
        if di > 2 {
            total(Seq::new(di, |k: int| {
                let dj = deg(g, g[i][k]);
                if dj > 1 { ((dj - 1) * ((di - 1) * (di - 2) / 2)) as nat } else { 0nat }
            }))
        } else {
            0nat
        }
    })
}

/// Every neighbour is a vertex, and no vertex lists more than `u32::MAX`
/// neighbours.
pub open spec fn modest(g: Adjacency) -> bool {
    closed(g) && forall|v: int| 0 <= v < g.len() ==> (#[trigger] g[v]).len() <= 0xffff_ffff
}

/// The constant of shortcut N2; `None` exactly when it does not fit in `u64`.
pub fn compute_n2_constant(adj: &Vec<Vec<usize>>) -> (r: Option<u64>)
    requires
        modest(adj_view(adj@)),
    ensures
        r matches Some(x) ==> x == total(n2_terms(adj_view(adj@))),
        r is None <==> total(n2_terms(adj_view(adj@))) > u64::MAX,
{
    let ghost g = adj_view(adj@);
    let mut vals: Vec<Option<u64>> = Vec::new();
    let mut i: usize = 0;
    while i < adj.len()
        invariant
            i <= adj.len(),
            g == adj_view(adj@),
            modest(g),
            vals.len() == i,
            forall|k: int| 0 <= k < i ==> match #[trigger] vals@[k] {
                Some(x) => x == n2_terms(g)[k],
                None => n2_terms(g)[k] > u64::MAX,
            },
        decreases adj.len() - i,
    {
        proof {
            assert(g[i as int] == adj@[i as int]@);
        }
        let nb = &adj[i];
        let di = nb.len();
        if di <= 2 {
            vals.push(Some(0));
        } else {
            proof {
                assert(g[i as int].len() <= 0xffff_ffff);
                assert((di - 1) * (di - 2) <= 0xffff_ffff * 0xffff_ffff) by (nonlinear_arith)
                    requires di <= 0xffff_ffff, di > 2;
            }
            let half = ((di as u64 - 1) * (di as u64 - 2)) / 2;
            let ghost inner = Seq::new(di as nat, |k: int| {
                let dj = deg(g, g[i as int][k]);
                if dj > 1 { ((dj - 1) * ((di - 1) * (di - 2) / 2)) as nat } else { 0nat }
            });
            let mut row: Vec<Option<u64>> = Vec::new();
            let mut k: usize = 0;
            while k < di
                invariant
                    k <= di,
                    di == nb.len(),
                    nb@ == g[i as int],
                    g == adj_view(adj@),
                    modest(g),
                    i < adj.len(),
                    half == (di - 1) * (di - 2) / 2,
                    inner == Seq::new(di as nat, |k: int| {
                        let dj = deg(g, g[i as int][k]);
                        if dj > 1 { ((dj - 1) * ((di - 1) * (di - 2) / 2)) as nat } else { 0nat }
                    }),
                    row.len() == k,
                    forall|q: int| 0 <= q < k ==> match #[trigger] row@[q] {
                        Some(x) => x == inner[q],
                        None => inner[q] > u64::MAX,
                    },
                decreases di - k,
            {
                let j = nb[k];
                proof {
                    assert(g[j as int] == adj@[j as int]@);
                }
                let dj = adj[j].len();
                if dj > 1 {
                    row.push(mul3(dj as u64 - 1, half, 1));
                } else {
                    row.push(Some(0));
                }
                k = k + 1;
            }
            vals.push(sum_terms(di, Ghost(inner), &row));
        }
        i = i + 1;
    }
    sum_terms(adj.len(), Ghost(n2_terms(g)), &vals)
}

/// The weight of a neighbour slot for shortcut N3: the neighbour's degree less one.
pub open spec fn wing(g: Adjacency, v: int, k: int) -> nat {
    let d = deg(g, g[v][k]);
    if d >= 1 { (d - 1) as nat } else { 0 }
}

/// Over vertices, the sum over pairs of neighbour slots `a < b` of the
/// product of their weights.
pub open spec fn n3_terms(g: Adjacency) -> Seq<nat> {
    Seq::new(g.len(), |v: int| total(Seq::new(g[v].len(), |a: int|
        total(Seq::new(g[v].len(), |b: int| if a < b { wing(g, v, a) * wing(g, v, b) } else { 0nat })))))
}

/// The constant of shortcut N3; `None` exactly when it does not fit in `u64`.
pub fn compute_n3_constant(adj: &Vec<Vec<usize>>) -> (r: Option<u64>)
    requires
        modest(adj_view(adj@)),
    ensures
        r matches Some(x) ==> x == total(n3_terms(adj_view(adj@))),
        r is None <==> total(n3_terms(adj_view(adj@))) > u64::MAX,
{
    let ghost g = adj_view(adj@);
    let mut vals: Vec<Option<u64>> = Vec::new();
    let mut v: usize = 0;
    while v < adj.len()
        invariant
            v <= adj.len(),
            g == adj_view(adj@),
            modest(g),
            vals.len() == v,
            forall|k: int| 0 <= k < v ==> match #[trigger] vals@[k] {
                Some(x) => x == n3_terms(g)[k],
                None => n3_terms(g)[k] > u64::MAX,
            },
        decreases adj.len() - v,
    {
        proof {
            assert(g[v as int] == adj@[v as int]@);
        }
        let nb = &adj[v];
        let d = nb.len();
        let ghost outer = Seq::new(g[v as int].len(), |a: int|
            total(Seq::new(g[v as int].len(), |b: int| if a < b { wing(g, v as int, a) * wing(g, v as int, b) } else { 0nat })));
        let mut rows: Vec<Option<u64>> = Vec::new();
        let mut a: usize = 0;
        while a < d
            invariant
                a <= d,
                d == nb.len(),
                nb@ == g[v as int],
                g == adj_view(adj@),
                modest(g),
                v < adj.len(),
                outer == Seq::new(g[v as int].len(), |a: int|
                    total(Seq::new(g[v as int].len(), |b: int| if a < b { wing(g, v as int, a) * wing(g, v as int, b) } else { 0nat }))),
                rows.len() == a,
                forall|q: int| 0 <= q < a ==> match #[trigger] rows@[q] {
                    Some(x) => x == outer[q],
                    None => outer[q] > u64::MAX,
                },
            decreases d - a,
        {
            let ghost inner = Seq::new(g[v as int].len(), |b: int| if a < b { wing(g, v as int, a as int) * wing(g, v as int, b) } else { 0nat });
            let ja = nb[a];
            proof {
                assert(g[ja as int] == adj@[ja as int]@);
            }
            let wa: u64 = if adj[ja].len() >= 1 { adj[ja].len() as u64 - 1 } else { 0 };
            let mut row: Vec<Option<u64>> = Vec::new();
            let mut b: usize = 0;
            while b < d
                invariant
                    b <= d,
                    a < d,
                    d == nb.len(),
                    nb@ == g[v as int],
                    g == adj_view(adj@),
                    modest(g),
                    v < adj.len(),
                    wa == wing(g, v as int, a as int),
                    inner == Seq::new(g[v as int].len(), |b: int| if a < b { wing(g, v as int, a as int) * wing(g, v as int, b) } else { 0nat }),
                    row.len() == b,
                    forall|q: int| 0 <= q < b ==> match #[trigger] row@[q] {
                        Some(x) => x == inner[q],
                        None => inner[q] > u64::MAX,
                    },
                decreases d - b,
            {
                let jb = nb[b];
                proof {
                    assert(g[jb as int] == adj@[jb as int]@);
                }
                let wb: u64 = if adj[jb].len() >= 1 { adj[jb].len() as u64 - 1 } else { 0 };
                if a < b {
                    let t = mul3(wa, wb, 1);
                    proof {
                        assert(wa * wb * 1 == wa * wb);
                    }
                    row.push(t);
                } else {
                    row.push(Some(0));
                }
                b = b + 1;
            }
            rows.push(sum_terms(d, Ghost(inner), &row));
            a = a + 1;
        }
        vals.push(sum_terms(d, Ghost(outer), &rows));
        v = v + 1;
    }
    sum_terms(adj.len(), Ghost(n3_terms(g)), &vals)
}

} // verus!

verus! {

/// Neighbour slots of `i` other than `j` whose vertex is also a neighbour of `j`.
pub open spec fn common(g: Adjacency, i: int, j: usize) -> nat {
    total(common_seq(g, i, j))
}

pub open spec fn common_seq(g: Adjacency, i: int, j: usize) -> Seq<nat> {
    Seq::new(g[i].len(), |m: int| if g[i][m] != j && g[j as int].contains(g[i][m]) { 1nat } else { 0nat })
}

/// Twice the constant of shortcut N6: over vertices `i` and neighbours `j`,
/// both of degree at least 3, `common(i, j) * (deg i - 2) * (deg j - 2)`.
pub open spec fn n6_terms(g: Adjacency) -> Seq<nat> {
    Seq::new(g.len(), |i: int| {
        let di = g[i].len();
        if di >= 3 {
            total(Seq::new(di, |k: int| {
                let j = g[i][k];
                let dj = deg(g, j);
                if dj >= 3 { common(g, i, j) * ((di - 2) as nat) * ((dj - 2) as nat) } else { 0nat }
            }))
        } else {
            0nat
        }
    })
}

fn common_exec(adj: &Vec<Vec<usize>>, i: usize, j: usize) -> (r: u64)
    requires
        modest(adj_view(adj@)),
        i < adj.len(),
        j < adj.len(),
    ensures
        r == common(adj_view(adj@), i as int, j),
{
    let ghost g = adj_view(adj@);
    proof {
        assert(g[i as int] == adj@[i as int]@);
        assert(g[j as int] == adj@[j as int]@);
    }
    let nb = &adj[i];
    let ghost s = common_seq(g, i as int, j);
    let mut c: u64 = 0;
    let mut m: usize = 0;
    while m < nb.len()
        invariant
            m <= nb.len(),
            g == adj_view(adj@),
            g.len() == adj.len(),
            i < adj.len(),
            nb@ == g[i as int],
            g[j as int] == adj@[j as int]@,
            j < adj.len(),
            s == common_seq(g, i as int, j),
            c == total(s.take(m as int)),
            c <= m,
            nb.len() <= 0xffff_ffff,
        decreases nb.len() - m,
    {
        proof {
            lemma_total_step(s, m as int);
        }
        if nb[m] != j && contains_vertex(&adj[j], nb[m]) {
            c = c + 1;
        }
        m = m + 1;
    }
    proof {
        assert(s.take(nb.len() as int) == s);
    }
    c
}

/// The constant of shortcut N6: half of the sum in `n6_terms`; `None` exactly
/// when that sum does not fit in `u64`.
pub fn compute_n6_constant(adj: &Vec<Vec<usize>>) -> (r: Option<u64>)
    requires
        modest(adj_view(adj@)),
    ensures
        r matches Some(x) ==> x == total(n6_terms(adj_view(adj@))) / 2,
        r is None <==> total(n6_terms(adj_view(adj@))) > u64::MAX,
{
    let ghost g = adj_view(adj@);
    let mut vals: Vec<Option<u64>> = Vec::new();
    let mut i: usize = 0;
    while i < adj.len()
        invariant
            i <= adj.len(),
            g == adj_view(adj@),
            modest(g),
            vals.len() == i,
            forall|k: int| 0 <= k < i ==> match #[trigger] vals@[k] {
                Some(x) => x == n6_terms(g)[k],
                None => n6_terms(g)[k] > u64::MAX,
            },
        decreases adj.len() - i,
    {
        proof {
            assert(g[i as int] == adj@[i as int]@);
        }
        let nb = &adj[i];
        let di = nb.len();
        if di < 3 {
            vals.push(Some(0));
        } else {
            let ghost inner = Seq::new(di as nat, |k: int| {
                let j = g[i as int][k];
                let dj = deg(g, j);
                if dj >= 3 { common(g, i as int, j) * ((di - 2) as nat) * ((dj - 2) as nat) } else { 0nat }
            });
            let mut row: Vec<Option<u64>> = Vec::new();
            let mut k: usize = 0;
            while k < di
                invariant
                    k <= di,
                    di >= 3,
                    di == nb.len(),
                    nb@ == g[i as int],
                    g == adj_view(adj@),
                    modest(g),
                    i < adj.len(),
                    inner == Seq::new(di as nat, |k: int| {
                        let j = g[i as int][k];
                        let dj = deg(g, j);
                        if dj >= 3 { common(g, i as int, j) * ((di - 2) as nat) * ((dj - 2) as nat) } else { 0nat }
                    }),
                    row.len() == k,
                    forall|q: int| 0 <= q < k ==> match #[trigger] row@[q] {
                        Some(x) => x == inner[q],
                        None => inner[q] > u64::MAX,
                    },
                decreases di - k,
            {
                let j = nb[k];
                proof {
                    assert(g[j as int] == adj@[j as int]@);
                }
                let dj = adj[j].len();
                if dj >= 3 {
                    let te = common_exec(adj, i, j);
                    row.push(mul3(te, di as u64 - 2, dj as u64 - 2));
                } else {
                    row.push(Some(0));
                }
                k = k + 1;
            }
            vals.push(sum_terms(di, Ghost(inner), &row));
        }
        i = i + 1;
    }
    match sum_terms(adj.len(), Ghost(n6_terms(g)), &vals) {
        Some(s) => Some(s / 2),
        None => None,
    }
}

/// Ordered pairs of distinct neighbour slots of `j`, neither holding `i`,
/// whose vertices are adjacent.
pub open spec fn wedge_closures(g: Adjacency, i: usize, j: usize) -> nat {
    total(wedge_seq(g, i, j))
}

pub open spec fn wedge_seq(g: Adjacency, i: usize, j: usize) -> Seq<nat> {
    Seq::new(g[j as int].len(), |x: int| total(wedge_row(g, i, j, x)))
}

pub open spec fn wedge_row(g: Adjacency, i: usize, j: usize, x: int) -> Seq<nat> {
    Seq::new(g[j as int].len(), |y: int|
        if x != y && g[j as int][x] != i && g[j as int][y] != i && g[g[j as int][x] as int].contains(g[j as int][y]) { 1nat } else { 0nat })
}

/// The constant of shortcut N5: over vertices `i` of degree at least 2 and
/// their neighbours `j`, `(deg i - 1) * (deg j - t)` where `t` is
/// `wedge_closures(i, j)`, when `0 < t < deg j`.
pub open spec fn n5_terms(g: Adjacency) -> Seq<nat> {
    Seq::new(g.len(), |i: int| {
        let di = g[i].len();
        if di >= 2 {
            total(Seq::new(di, |k: int| {
                let j = g[i][k];
                let t = wedge_closures(g, i as usize, j);
                let dj = deg(g, j);
                if t > 0 && dj > t { ((di - 1) * (dj - t)) as nat } else { 0nat }
            }))
        } else {
            0nat
        }
    })
}

fn wedge_exec(adj: &Vec<Vec<usize>>, i: usize, j: usize) -> (r: u64)
    requires
        modest(adj_view(adj@)),
        j < adj.len(),
    ensures
        r == wedge_closures(adj_view(adj@), i, j),
{
    let ghost g = adj_view(adj@);
    proof {
        assert(g[j as int] == adj@[j as int]@);
        assert(g[j as int].len() <= 0xffff_ffff);
    }
    let nb = &adj[j];
    let d = nb.len();
    let ghost outer = wedge_seq(g, i, j);
    let mut t: u64 = 0;
    let mut x: usize = 0;
    while x < d
        invariant
            x <= d,
            d == nb.len(),
            d <= 0xffff_ffff,
            g.len() == adj.len(),
            j < adj.len(),
            nb@ == g[j as int],
            g == adj_view(adj@),
            modest(g),
            outer == wedge_seq(g, i, j),
            t == total(outer.take(x as int)),
            t <= x * d,
        decreases d - x,
    {
        let ghost inner = wedge_row(g, i, j, x as int);
        let u = nb[x];
        proof {
            assert(g[j as int][x as int] < g.len());
            assert(g[u as int] == adj@[u as int]@);
        }
        let mut c: u64 = 0;
        let mut y: usize = 0;
        while y < d
            invariant
                y <= d,
                x < d,
                d == nb.len(),
                d <= 0xffff_ffff,
                g.len() == adj.len(),
                j < adj.len(),
                g == adj_view(adj@),
                nb@ == g[j as int],
                u == nb@[x as int],
                u < adj.len(),
                g[u as int] == adj@[u as int]@,
                inner == wedge_row(g, i, j, x as int),
                c == total(inner.take(y as int)),
                c <= y,
            decreases d - y,
        {
            proof {
                lemma_total_step(inner, y as int);
            }
            if x != y && u != i && nb[y] != i && contains_vertex(&adj[u], nb[y]) {
                c = c + 1;
            }
            y = y + 1;
        }
        proof {
            assert(inner.take(d as int) == inner);
            assert(outer[x as int] == total(inner));
            lemma_total_step(outer, x as int);
            assert(t + c <= (x + 1) * d) by (nonlinear_arith)
                requires t <= x * d, c <= d;
            assert((x + 1) * d <= 0xffff_ffff * 0xffff_ffff) by (nonlinear_arith)
                requires x < d, d <= 0xffff_ffff;
        }
        t = t + c;
        x = x + 1;
    }
    proof {
        assert(outer.take(d as int) == outer);
    }
    t
}

/// The constant of shortcut N5; `None` exactly when it does not fit in `u64`.
pub fn compute_n5_constant(adj: &Vec<Vec<usize>>) -> (r: Option<u64>)
    requires
        modest(adj_view(adj@)),
    ensures
        r matches Some(x) ==> x == total(n5_terms(adj_view(adj@))),
        r is None <==> total(n5_terms(adj_view(adj@))) > u64::MAX,
{
    let ghost g = adj_view(adj@);
    let mut vals: Vec<Option<u64>> = Vec::new();
    let mut i: usize = 0;
    while i < adj.len()
        invariant
            i <= adj.len(),
            g == adj_view(adj@),
            modest(g),
            vals.len() == i,
            forall|k: int| 0 <= k < i ==> match #[trigger] vals@[k] {
                Some(x) => x == n5_terms(g)[k],
                None => n5_terms(g)[k] > u64::MAX,
            },
        decreases adj.len() - i,
    {
        proof {
            assert(g[i as int] == adj@[i as int]@);
        }
        let nb = &adj[i];
        let di = nb.len();
        if di < 2 {
            vals.push(Some(0));
        } else {
            let ghost inner = Seq::new(di as nat, |k: int| {
                let j = g[i as int][k];
                let t = wedge_closures(g, i, j);
                let dj = deg(g, j);
                if t > 0 && dj > t { ((di - 1) * (dj - t)) as nat } else { 0nat }
            });
            let mut row: Vec<Option<u64>> = Vec::new();
            let mut k: usize = 0;
            while k < di
                invariant
                    k <= di,
                    di >= 2,
                    di == nb.len(),
                    nb@ == g[i as int],
                    g == adj_view(adj@),
                    modest(g),
                    i < adj.len(),
                    inner == Seq::new(di as nat, |k: int| {
                        let j = g[i as int][k];
                        let t = wedge_closures(g, i, j);
                        let dj = deg(g, j);
                        if t > 0 && dj > t { ((di - 1) * (dj - t)) as nat } else { 0nat }
                    }),
                    row.len() == k,
                    forall|q: int| 0 <= q < k ==> match #[trigger] row@[q] {
                        Some(x) => x == inner[q],
                        None => inner[q] > u64::MAX,
                    },
                decreases di - k,
            {
                let j = nb[k];
                proof {
                    assert(g[j as int] == adj@[j as int]@);
                }
                let t = wedge_exec(adj, i, j);
                let dj = adj[j].len() as u64;
                if t > 0 && dj > t {
                    row.push(mul3(di as u64 - 1, dj - t, 1));
                } else {
                    row.push(Some(0));
                }
                k = k + 1;
            }
            vals.push(sum_terms(di, Ghost(inner), &row));
        }
        i = i + 1;
    }
    sum_terms(adj.len(), Ghost(n5_terms(g)), &vals)
}

/// The data graph as an adjacency list over vertices `0..n`: each edge `(a, b)`
/// appends `b` to the list of `a` and `a` to the list of `b`, in order.
pub open spec fn data_graph(edges: Seq<(usize, usize)>, n: nat) -> Adjacency
    decreases edges.len(),
{
    if edges.len() == 0 {
        Seq::new(n, |v: int| Seq::<usize>::empty())
    } else {
        let g = data_graph(edges.drop_last(), n);
        let (a, b) = edges.last();
        let g1 = g.update(a as int, g[a as int].push(b));
        g1.update(b as int, g1[b as int].push(a))
    }
}

/// Builds the adjacency list of a data graph on `n` vertices from its edges.
pub fn create_data_graph_adjacency_list(edges: &Vec<(usize, usize)>, n: usize) -> (r: Vec<Vec<usize>>)
    requires
        forall|k: int| 0 <= k < edges.len() ==> (#[trigger] edges@[k]).0 < n && edges@[k].1 < n,
    ensures
        adj_view(r@) == data_graph(edges@, n as nat),
{
    let mut r: Vec<Vec<usize>> = Vec::new();
    let mut v: usize = 0;
    while v < n
        invariant
            v <= n,
            r.len() == v,
            forall|q: int| 0 <= q < v ==> (#[trigger] r@[q])@.len() == 0,
        decreases n - v,
    {
        r.push(Vec::new());
        v = v + 1;
    }
    proof {
        assert(edges@.take(0).len() == 0);
        assert forall|q: int| 0 <= q < n implies #[trigger] adj_view(r@)[q] =~= Seq::<usize>::empty() by {
            assert(r@[q]@.len() == 0);
        }
        assert(adj_view(r@) =~= data_graph(edges@.take(0), n as nat));
    }
    let mut k: usize = 0;
    while k < edges.len()
        invariant
            k <= edges.len(),
            r.len() == n,
            forall|q: int| 0 <= q < edges.len() ==> (#[trigger] edges@[q]).0 < n && edges@[q].1 < n,
            adj_view(r@) == data_graph(edges@.take(k as int), n as nat),
        decreases edges.len() - k,
    {
        let (a, b) = edges[k];
        let ghost before = adj_view(r@);
        proof {
            assert(edges@.take(k + 1).drop_last() == edges@.take(k as int));
            assert(edges@.take(k + 1).last() == (a, b));
            assert forall|q: int| 0 <= q < edges@.take(k as int).len() implies (#[trigger] edges@.take(k as int)[q]).0 < n && edges@.take(k as int)[q].1 < n by {
                assert(edges@.take(k as int)[q] == edges@[q]);
            }
            lemma_data_graph_len(edges@.take(k as int), n as nat);
        }
        r[a].push(b);
        let ghost mid = adj_view(r@);
        proof {
            assert(mid =~= before.update(a as int, before[a as int].push(b)));
        }
        r[b].push(a);
        proof {
            assert(adj_view(r@) =~= mid.update(b as int, mid[b as int].push(a)));
        }
        k = k + 1;
    }
    proof {
        assert(edges@.take(edges.len() as int) == edges@);
    }
    r
}

proof fn lemma_data_graph_len(edges: Seq<(usize, usize)>, n: nat)
    requires
        forall|k: int| 0 <= k < edges.len() ==> (#[trigger] edges[k]).0 < n && edges[k].1 < n,
    ensures
        data_graph(edges, n).len() == n,
    decreases edges.len(),
{
    if edges.len() > 0 {
        lemma_data_graph_len(edges.drop_last(), n);
    }
}

} // verus!
