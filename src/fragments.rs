//! Fragment counting through a minimum cut of the pattern: the pattern is
//! split at a saturated edge of a maximum flow from its first vertex to its
//! last, and the data graph's vertex pairs are counted by how many ways their
//! neighbourhoods can hold the two sides.

use vstd::prelude::*;
use vstd::string::*;
use crate::constants::total;
use crate::graph::{calculate_permutation, fact};

verus! {

pub type Matrix = Seq<Seq<usize>>;

pub open spec fn matrix_view(m: Seq<Vec<usize>>) -> Matrix {
    m.map_values(|r: Vec<usize>| r@)
}

pub open spec fn is_square(m: Matrix) -> bool {
    forall|i: int| 0 <= i < m.len() ==> (#[trigger] m[i]).len() == m.len()
}

pub open spec fn degree_seq(m: Matrix, v: int) -> Seq<nat> {
    Seq::new(m[v].len(), |k: int| if m[v][k] == 1 { 1nat } else { 0nat })
}

/// The number of entries of row `v` equal to 1.
pub open spec fn degree_in(m: Matrix, v: int) -> nat {
    total(degree_seq(m, v))
}

proof fn lemma_total_step(s: Seq<nat>, k: int)
    requires
        0 <= k < s.len(),
    ensures
        total(s.take(k + 1)) == total(s.take(k)) + s[k],
{
    assert(s.take(k + 1).drop_last() == s.take(k));
}

/// The degree of `node` in an adjacency matrix.
pub fn get_node_degree(m: &Vec<Vec<usize>>, node: usize) -> (r: usize)
    requires
        node < m.len(),
    ensures
        r == degree_in(matrix_view(m@), node as int),
{
    let ghost s = degree_seq(matrix_view(m@), node as int);
    proof {
        assert(matrix_view(m@)[node as int] == m@[node as int]@);
    }
    let row = &m[node];
    let mut d: usize = 0;
    let mut k: usize = 0;
    while k < row.len()
        invariant
            k <= row.len(),
            s == degree_seq(matrix_view(m@), node as int),
            row@ == matrix_view(m@)[node as int],
            d == total(s.take(k as int)),
            d <= k,
        decreases row.len() - k,
    {
        proof {
            lemma_total_step(s, k as int);
        }
        if row[k] == 1 {
            d = d + 1;
        }
        k = k + 1;
    }
    proof {
        assert(s.take(row.len() as int) == s);
    }
    d
}

/// Every vertex reached from a marked one over an entry above 0 is marked.
pub open spec fn closed_under(g: Matrix, vis: Seq<bool>) -> bool {
    forall|u: int, w: int| 0 <= u < vis.len() && 0 <= w < vis.len() && vis[u] && #[trigger] g[u][w] > 0 ==> vis[w]
}

pub open spec fn mark_seq(v: Seq<bool>) -> Seq<nat> {
    Seq::new(v.len(), |i: int| if v[i] { 1nat } else { 0nat })
}

/// How many vertices are marked.
pub open spec fn marks(v: Seq<bool>) -> nat {
    total(mark_seq(v))
}

proof fn lemma_total_update(s: Seq<nat>, k: int, x: nat)
    requires
        0 <= k < s.len(),
    ensures
        total(s.update(k, x)) + s[k] == total(s) + x,
    decreases s.len(),
{
    let u = s.update(k, x);
    if k == s.len() - 1 {
        assert(u.drop_last() =~= s.drop_last());
    } else {
        lemma_total_update(s.drop_last(), k, x);
        assert(u.drop_last() =~= s.drop_last().update(k, x));
    }
}

proof fn lemma_total_unit(s: Seq<nat>)
    requires
        forall|i: int| 0 <= i < s.len() ==> #[trigger] s[i] <= 1,
    ensures
        total(s) <= s.len(),
        (forall|i: int| 0 <= i < s.len() ==> #[trigger] s[i] == 0) ==> total(s) == 0,
    decreases s.len(),
{
    if s.len() > 0 {
        lemma_total_unit(s.drop_last());
    }
}

proof fn lemma_mark(v: Seq<bool>, k: int)
    requires
        0 <= k < v.len(),
        !v[k],
    ensures
        marks(v.update(k, true)) == marks(v) + 1,
        marks(v) < v.len(),
{
    assert(mark_seq(v.update(k, true)) =~= mark_seq(v).update(k, 1));
    lemma_total_update(mark_seq(v), k, 1);
    lemma_total_unit(mark_seq(v.update(k, true)));
}

fn unmarked(n: usize) -> (r: Vec<bool>)
    ensures
        r.len() == n,
        forall|i: int| 0 <= i < n ==> !(#[trigger] r@[i]),
        marks(r@) == 0,
{
    let mut r: Vec<bool> = Vec::new();
    let mut k: usize = 0;
    while k < n
        invariant
            k <= n,
            r.len() == k,
            forall|i: int| 0 <= i < k ==> !(#[trigger] r@[i]),
        decreases n - k,
    {
        r.push(false);
        k = k + 1;
    }
    proof {
        lemma_total_unit(mark_seq(r@));
    }
    r
}

/// Breadth-first search from `s` over entries above 0; records in `parent`
/// the vertex each reached vertex was reached from. Gives whether `t` was
/// reached and the reached set, which holds `s` and is closed.
fn bfs(s: usize, t: usize, parent: &mut Vec<usize>, graph: &Vec<Vec<usize>>) -> (r: (bool, Vec<bool>))
    requires
        is_square(matrix_view(graph@)),
        s < graph.len(),
        t < graph.len(),
        old(parent).len() == graph.len(),
        forall|v: int| 0 <= v < old(parent).len() ==> (#[trigger] old(parent)@[v]) < graph.len(),
    ensures
        final(parent).len() == graph.len(),
        forall|v: int| 0 <= v < final(parent).len() ==> (#[trigger] final(parent)@[v]) < graph.len(),
        r.1.len() == graph.len(),
        r.1@[s as int],
        closed_under(matrix_view(graph@), r.1@),
        r.0 == r.1@[t as int],
{
    let n = graph.len();
    let ghost m = matrix_view(graph@);
    let mut visited = unmarked(n);
    let mut queue: Vec<usize> = Vec::new();
    queue.push(s);
    proof {
        lemma_mark(visited@, s as int);
    }
    visited.set(s, true);
    proof {
        assert(queue@[0] == s);
        assert forall|u: int| 0 <= u < n && #[trigger] visited@[u] implies queue@.contains(u as usize) by {
            assert(u == s);
        }
    }
    let mut head: usize = 0;
    while head < queue.len()
        invariant
            n == graph.len(),
            m == matrix_view(graph@),
            is_square(m),
            s < n,
            visited.len() == n,
            parent.len() == n,
            head <= queue.len(),
            queue.len() == marks(visited@),
            marks(visited@) <= n,
            visited@[s as int],
            forall|v: int| 0 <= v < parent.len() ==> (#[trigger] parent@[v]) < n,
            forall|q: int| 0 <= q < queue.len() ==> (#[trigger] queue@[q]) < n && visited@[queue@[q] as int],
            forall|u: int| 0 <= u < n && #[trigger] visited@[u] ==> queue@.contains(u as usize),
            forall|q: int, w: int| 0 <= q < head && 0 <= w < n && #[trigger] m[queue@[q] as int][w] > 0 ==> visited@[w],
        decreases n - head,
    {
        let u = queue[head];
        head = head + 1;
        proof {
            assert(m[u as int] == graph@[u as int]@);
        }
        let mut ind: usize = 0;
        while ind < n
            invariant
                ind <= n,
                n == graph.len(),
                m == matrix_view(graph@),
                is_square(m),
                s < n,
                u < n,
                head >= 1,
                u == queue@[head - 1],
                visited.len() == n,
                parent.len() == n,
                head <= queue.len(),
                queue.len() == marks(visited@),
                marks(visited@) <= n,
                visited@[s as int],
                graph@[u as int]@.len() == n,
                m[u as int] == graph@[u as int]@,
                forall|v: int| 0 <= v < parent.len() ==> (#[trigger] parent@[v]) < n,
                forall|q: int| 0 <= q < queue.len() ==> (#[trigger] queue@[q]) < n && visited@[queue@[q] as int],
                forall|x: int| 0 <= x < n && #[trigger] visited@[x] ==> queue@.contains(x as usize),
                forall|q: int, w: int| 0 <= q < head - 1 && 0 <= w < n && #[trigger] m[queue@[q] as int][w] > 0 ==> visited@[w],
                forall|w: int| 0 <= w < ind && #[trigger] m[u as int][w] > 0 ==> visited@[w],
            decreases n - ind,
        {
            if !visited[ind] && graph[u][ind] > 0 {
                proof {
                    lemma_mark(visited@, ind as int);
                }
                let ghost q0 = queue@;
                queue.push(ind);
                visited.set(ind, true);
                parent.set(ind, u);
                proof {
                    assert(queue@[q0.len() as int] == ind);
                    assert forall|x: int| 0 <= x < n && #[trigger] visited@[x] implies queue@.contains(x as usize) by {
                        if x != ind {
                            let q = choose|q: int| 0 <= q < q0.len() && q0[q] == x as usize;
                            assert(queue@[q] == x as usize);
                        }
                    }
                }
            }
            ind = ind + 1;
        }
    }
    proof {
        assert forall|x: int, w: int| 0 <= x < n && 0 <= w < n && visited@[x] && #[trigger] m[x][w] > 0 implies visited@[w] by {
            let q = choose|q: int| 0 <= q < queue@.len() && queue@[q] == x as usize;
            assert(m[queue@[q] as int][w] > 0);
        }
    }
    (visited[t], visited)
}

/// Marks every vertex reachable from `s` over entries above 0: the marked set
/// holds `s`, is closed, and lies inside any closed set that holds `s`.
fn dfs(graph: &Vec<Vec<usize>>, s: usize, Ghost(bound): Ghost<Seq<bool>>) -> (r: Vec<bool>)
    requires
        is_square(matrix_view(graph@)),
        s < graph.len(),
    ensures
        r.len() == graph.len(),
        r@[s as int],
        closed_under(matrix_view(graph@), r@),
        (bound.len() == graph.len() && closed_under(matrix_view(graph@), bound) && bound[s as int])
            ==> forall|i: int| 0 <= i < graph.len() && #[trigger] r@[i] ==> bound[i],
{
    let n = graph.len();
    let ghost m = matrix_view(graph@);
    let ghost inside = bound.len() == n && closed_under(m, bound) && bound[s as int];
    let mut marked = unmarked(n);
    let mut stack: Vec<usize> = Vec::new();
    stack.push(s);
    proof {
        lemma_mark(marked@, s as int);
    }
    marked.set(s, true);
    proof {
        assert(stack@[0] == s);
        assert forall|x: int, w: int| 0 <= x < n && 0 <= w < n && marked@[x] && !stack@.contains(x as usize)
            && #[trigger] m[x][w] > 0 implies marked@[w] by {
            assert(x == s);
        }
    }
    while stack.len() > 0
        invariant
            n == graph.len(),
            m == matrix_view(graph@),
            is_square(m),
            s < n,
            marked.len() == n,
            marked@[s as int],
            marks(marked@) <= n,
            inside == (bound.len() == n && closed_under(m, bound) && bound[s as int]),
            inside ==> forall|i: int| 0 <= i < n && #[trigger] marked@[i] ==> bound[i],
            forall|q: int| 0 <= q < stack.len() ==> (#[trigger] stack@[q]) < n && marked@[stack@[q] as int],
            forall|x: int, w: int| 0 <= x < n && 0 <= w < n && marked@[x] && !stack@.contains(x as usize)
                && #[trigger] m[x][w] > 0 ==> marked@[w],
        decreases 2 * (n - marks(marked@)) + stack.len(),
    {
        let ghost m0 = 2 * (n - marks(marked@)) + stack.len();
        let ghost s0 = stack@;
        let u = stack.pop().unwrap();
        proof {
            assert(m[u as int] == graph@[u as int]@);
            assert(stack@ == s0.drop_last());
            assert(u == s0.last());
            assert forall|x: int| 0 <= x < n && x != u && !stack@.contains(x as usize) implies !#[trigger] s0.contains(x as usize) by {
                if s0.contains(x as usize) {
                    let q = choose|q: int| 0 <= q < s0.len() && s0[q] == x as usize;
                    assert(q != s0.len() - 1);
                    assert(stack@[q] == s0[q]);
                }
            }
        }
        let mut i: usize = 0;
        while i < n
            invariant
                i <= n,
                n == graph.len(),
                m == matrix_view(graph@),
                is_square(m),
                s < n,
                u < n,
                marked.len() == n,
                marked@[s as int],
                marked@[u as int],
                marks(marked@) <= n,
                2 * (n - marks(marked@)) + stack.len() + 1 <= m0,
                graph@[u as int]@.len() == n,
                m[u as int] == graph@[u as int]@,
                inside == (bound.len() == n && closed_under(m, bound) && bound[s as int]),
                inside ==> forall|x: int| 0 <= x < n && #[trigger] marked@[x] ==> bound[x],
                forall|q: int| 0 <= q < stack.len() ==> (#[trigger] stack@[q]) < n && marked@[stack@[q] as int],
                forall|x: int, w: int| 0 <= x < n && 0 <= w < n && x != u && marked@[x] && !stack@.contains(x as usize)
                    && #[trigger] m[x][w] > 0 ==> marked@[w],
                forall|w: int| 0 <= w < i && #[trigger] m[u as int][w] > 0 ==> marked@[w],
            decreases n - i,
        {
            if graph[u][i] > 0 && !marked[i] {
                proof {
                    lemma_mark(marked@, i as int);
                    if inside {
                        assert(m[u as int][i as int] > 0);
                    }
                }
                let ghost st = stack@;
                marked.set(i, true);
                stack.push(i);
                proof {
                    assert forall|x: int, w: int| 0 <= x < n && 0 <= w < n && x != u && marked@[x] && !stack@.contains(x as usize)
                        && #[trigger] m[x][w] > 0 implies marked@[w] by {
                        if x != i {
                            if st.contains(x as usize) {
                                let q = choose|q: int| 0 <= q < st.len() && st[q] == x as usize;
                                assert(stack@[q] == x as usize);
                            }
                        } else {
                            assert(stack@[st.len() as int] == i);
                        }
                    }
                }
            }
            i = i + 1;
        }
        proof {
            assert forall|x: int, w: int| 0 <= x < n && 0 <= w < n && marked@[x] && !stack@.contains(x as usize)
                && #[trigger] m[x][w] > 0 implies marked@[w] by {}
        }
    }
    marked
}

fn copy_matrix(m: &Vec<Vec<usize>>) -> (r: Vec<Vec<usize>>)
    ensures
        matrix_view(r@) == matrix_view(m@),
{
    let mut r: Vec<Vec<usize>> = Vec::new();
    let mut i: usize = 0;
    while i < m.len()
        invariant
            i <= m.len(),
            r.len() == i,
            forall|q: int| 0 <= q < i ==> (#[trigger] r@[q])@ == m@[q]@,
        decreases m.len() - i,
    {
        let mut row: Vec<usize> = Vec::new();
        let mut j: usize = 0;
        while j < m[i].len()
            invariant
                j <= m@[i as int]@.len(),
                i < m.len(),
                row@ == m@[i as int]@.take(j as int),
            decreases m@[i as int]@.len() - j,
        {
            row.push(m[i][j]);
            proof {
                assert(m@[i as int]@.take(j + 1) == m@[i as int]@.take(j as int).push(m@[i as int]@[j as int]));
            }
            j = j + 1;
        }
        proof {
            assert(m@[i as int]@.take(m@[i as int]@.len() as int) == m@[i as int]@);
        }
        r.push(row);
        i = i + 1;
    }
    proof {
        assert(matrix_view(r@) =~= matrix_view(m@));
    }
    r
}

/// A path from vertex 0 to the last vertex along entries above 0.
pub open spec fn is_path(m: Matrix, p: Seq<usize>) -> bool {
    &&& p.len() >= 2
    &&& p[0] == 0
    &&& p.last() == m.len() - 1
    &&& forall|k: int| 0 <= k < p.len() ==> (#[trigger] p[k]) < m.len()
    &&& forall|k: int| 0 <= k < p.len() - 1 ==> #[trigger] m[p[k] as int][p[k + 1] as int] > 0
}

/// A path that starts inside a set and ends outside it has a step leaving it.
proof fn lemma_leaving(set: Seq<bool>, p: Seq<usize>)
    requires
        p.len() >= 1,
        forall|k: int| 0 <= k < p.len() ==> (#[trigger] p[k]) < set.len(),
        set[p[0] as int],
        !set[p.last() as int],
    ensures
        exists|k: int| 0 <= k < p.len() - 1 && set[p[k] as int] && !set[#[trigger] p[k + 1] as int],
    decreases p.len(),
{
    let j = p.len() - 2;
    if p.len() == 1 {
        assert(false);
    } else if set[p[j] as int] {
        assert(p[j + 1] == p.last());
        assert(0 <= j < p.len() - 1 && set[p[j] as int] && !set[p[j + 1] as int]);
    } else {
        let d = p.drop_last();
        assert forall|k: int| 0 <= k < d.len() implies (#[trigger] d[k]) < set.len() by {
            assert(d[k] == p[k]);
        }
        assert(d.last() == p[j]);
        lemma_leaving(set, d);
        let k = choose|k: int| 0 <= k < d.len() - 1 && set[d[k] as int] && !set[#[trigger] d[k + 1] as int];
        assert(d[k] == p[k] && d[k + 1] == p[k + 1]);
        assert(0 <= k < p.len() - 1 && set[p[k] as int] && !set[p[k + 1] as int]);
    }
}

fn all_edges(capacities: &Vec<Vec<usize>>) -> (r: Vec<(usize, usize)>)
    requires
        is_square(matrix_view(capacities@)),
    ensures
        forall|k: int| 0 <= k < r.len() ==> {
            let (i, j) = #[trigger] r@[k];
            i < capacities.len() && j < capacities.len() && capacities@[i as int]@[j as int] > 0
        },
        forall|i: int, j: int| 0 <= i < capacities.len() && 0 <= j < capacities.len()
            && #[trigger] capacities@[i]@[j] > 0 ==> r@.contains((i as usize, j as usize)),
{
    let n = capacities.len();
    let mut r: Vec<(usize, usize)> = Vec::new();
    let mut i: usize = 0;
    while i < n
        invariant
            i <= n,
            n == capacities.len(),
            is_square(matrix_view(capacities@)),
            forall|k: int| 0 <= k < r.len() ==> {
                let (a, b) = #[trigger] r@[k];
                a < n && b < n && capacities@[a as int]@[b as int] > 0
            },
            forall|a: int, b: int| 0 <= a < i && 0 <= b < n && #[trigger] capacities@[a]@[b] > 0 ==> r@.contains((a as usize, b as usize)),
        decreases n - i,
    {
        proof {
            assert(matrix_view(capacities@)[i as int] == capacities@[i as int]@);
        }
        let mut j: usize = 0;
        while j < n
            invariant
                j <= n,
                i < n,
                n == capacities.len(),
                capacities@[i as int]@.len() == n,
                forall|k: int| 0 <= k < r.len() ==> {
                    let (a, b) = #[trigger] r@[k];
                    a < n && b < n && capacities@[a as int]@[b as int] > 0
                },
                forall|a: int, b: int| 0 <= a < i && 0 <= b < n && #[trigger] capacities@[a]@[b] > 0 ==> r@.contains((a as usize, b as usize)),
                forall|b: int| 0 <= b < j && #[trigger] capacities@[i as int]@[b] > 0 ==> r@.contains((i, b as usize)),
            decreases n - j,
        {
            if capacities[i][j] > 0 {
                let ghost r0 = r@;
                r.push((i, j));
                proof {
                    assert(r@[r0.len() as int] == (i, j));
                    assert forall|a: int, b: int| 0 <= a < i && 0 <= b < n && #[trigger] capacities@[a]@[b] > 0 implies r@.contains((a as usize, b as usize)) by {
                        let q = choose|q: int| 0 <= q < r0.len() && r0[q] == (a as usize, b as usize);
                        assert(r@[q] == r0[q]);
                    }
                    assert forall|b: int| 0 <= b < j + 1 && #[trigger] capacities@[i as int]@[b] > 0 implies r@.contains((i, b as usize)) by {
                        if b < j {
                            let q = choose|q: int| 0 <= q < r0.len() && r0[q] == (i, b as usize);
                            assert(r@[q] == r0[q]);
                        }
                    }
                }
            }
            j = j + 1;
        }
        i = i + 1;
    }
    r
}

fn collect_cut(graph: &Vec<Vec<usize>>, capacities: &Vec<Vec<usize>>, visited: &Vec<bool>) -> (cut_set: Vec<(usize, usize)>)
    requires
        graph.len() == capacities.len(),
        visited.len() == capacities.len(),
        is_square(matrix_view(graph@)),
        is_square(matrix_view(capacities@)),
    ensures
        forall|k: int| 0 <= k < cut_set.len() ==> {
            let (a, b) = #[trigger] cut_set@[k];
            a < capacities.len() && b < capacities.len() && capacities@[a as int]@[b as int] > 0
        },
        forall|a: int, b: int| 0 <= a < capacities.len() && 0 <= b < capacities.len() && matrix_view(graph@)[a][b] == 0
            && #[trigger] matrix_view(capacities@)[a][b] > 0 && visited@[a] ==> cut_set@.contains((a as usize, b as usize)),
{
    let n = capacities.len();
    let ghost gm = matrix_view(graph@);
    let ghost cap = matrix_view(capacities@);
    let mut cut_set: Vec<(usize, usize)> = Vec::new();
    let mut i: usize = 0;
    while i < n
        invariant
            i <= n,
            n == capacities.len(),
            graph.len() == n,
            visited.len() == n,
            gm == matrix_view(graph@),
            is_square(gm),
            is_square(cap),
            cap == matrix_view(capacities@),
            forall|k: int| 0 <= k < cut_set.len() ==> {
                let (a, b) = #[trigger] cut_set@[k];
                a < n && b < n && capacities@[a as int]@[b as int] > 0
            },
            forall|a: int, b: int| 0 <= a < i && 0 <= b < n && gm[a][b] == 0 && #[trigger] cap[a][b] > 0 && visited@[a]
                ==> cut_set@.contains((a as usize, b as usize)),
        decreases n - i,
    {
        proof {
            assert(gm[i as int] == graph@[i as int]@);
            assert(cap[i as int] == capacities@[i as int]@);
        }
        let mut j: usize = 0;
        while j < n
            invariant
                j <= n,
                i < n,
                n == capacities.len(),
                graph.len() == n,
                visited.len() == n,
                gm == matrix_view(graph@),
                cap == matrix_view(capacities@),
                graph@[i as int]@.len() == n,
                capacities@[i as int]@.len() == n,
                gm[i as int] == graph@[i as int]@,
                cap[i as int] == capacities@[i as int]@,
                forall|k: int| 0 <= k < cut_set.len() ==> {
                    let (a, b) = #[trigger] cut_set@[k];
                    a < n && b < n && capacities@[a as int]@[b as int] > 0
                },
                forall|a: int, b: int| 0 <= a < i && 0 <= b < n && gm[a][b] == 0 && #[trigger] cap[a][b] > 0 && visited@[a]
                    ==> cut_set@.contains((a as usize, b as usize)),
                forall|b: int| 0 <= b < j && gm[i as int][b] == 0 && #[trigger] cap[i as int][b] > 0 && visited@[i as int]
                    ==> cut_set@.contains((i, b as usize)),
            decreases n - j,
        {
            if graph[i][j] == 0 && capacities[i][j] > 0 && visited[i] {
                let ghost c0 = cut_set@;
                cut_set.push((i, j));
                proof {
                    assert(cut_set@[c0.len() as int] == (i, j));
                    assert forall|a: int, b: int| 0 <= a < i && 0 <= b < n && gm[a][b] == 0 && #[trigger] cap[a][b] > 0 && visited@[a]
                        implies cut_set@.contains((a as usize, b as usize)) by {
                        let q = choose|q: int| 0 <= q < c0.len() && c0[q] == (a as usize, b as usize);
                        assert(cut_set@[q] == c0[q]);
                    }
                    assert forall|b: int| 0 <= b < j + 1 && gm[i as int][b] == 0 && #[trigger] cap[i as int][b] > 0 && visited@[i as int]
                        implies cut_set@.contains((i, b as usize)) by {
                        if b < j {
                            let q = choose|q: int| 0 <= q < c0.len() && c0[q] == (i, b as usize);
                            assert(cut_set@[q] == c0[q]);
                        }
                    }
                }
            }
            j = j + 1;
        }
        i = i + 1;
    }
    cut_set
}

/// A cut between the first and the last vertex of the capacity matrix: after
/// augmenting along breadth-first paths while one is left, the edges with no
/// capacity left whose tail is still reached from the search's start. Each pair
/// it gives is an edge of `capacities`, and every path from the first vertex to
/// the last uses one of them.
pub fn min_cut(capacities: &Vec<Vec<usize>>) -> (r: Vec<(usize, usize)>)
    requires
        is_square(matrix_view(capacities@)),
        capacities.len() >= 1,
    ensures
        forall|k: int| 0 <= k < r.len() ==> {
            let (i, j) = #[trigger] r@[k];
            i < capacities.len() && j < capacities.len() && capacities@[i as int]@[j as int] > 0
        },
        forall|p: Seq<usize>| #[trigger] is_path(matrix_view(capacities@), p) ==>
            exists|k: int| 0 <= k < p.len() - 1 && r@.contains((p[k], #[trigger] p[k + 1])),
{
    let n = capacities.len();
    let ghost cap = matrix_view(capacities@);
    let mut graph = copy_matrix(capacities);
    proof {
        assert(matrix_view(graph@).len() == graph.len());
        assert(matrix_view(capacities@).len() == capacities.len());
    }
    let src: usize = 0;
    let sink: usize = n - 1;
    let mut parent: Vec<usize> = Vec::new();
    let mut k: usize = 0;
    while k < n
        invariant
            k <= n,
            parent.len() == k,
            forall|v: int| 0 <= v < k ==> (#[trigger] parent@[v]) == 0,
        decreases n - k,
    {
        parent.push(0);
        k = k + 1;
    }
    let mut s = sink;
    let mut augmented = false;
    let mut stuck = false;
    let mut rounds: usize = 0;
    while rounds < usize::MAX
        invariant
            n == capacities.len(),
            n >= 1,
            src == 0,
            sink == n - 1,
            s < n,
            graph.len() == n,
            parent.len() == n,
            is_square(matrix_view(graph@)),
            forall|v: int| 0 <= v < n ==> (#[trigger] parent@[v]) < n,
            !augmented ==> matrix_view(graph@) == cap && s == sink,
            augmented ==> s == src,
        decreases usize::MAX - rounds,
    {
        let (found, _) = bfs(src, sink, &mut parent, &graph);
        if !found {
            break;
        }
        rounds = rounds + 1;
        let mut path_flow = usize::MAX;
        let mut t = sink;
        let mut steps: usize = 0;
        while t != src && steps < n
            invariant
                t < n,
                graph.len() == n,
                parent.len() == n,
                is_square(matrix_view(graph@)),
                forall|v: int| 0 <= v < n ==> (#[trigger] parent@[v]) < n,
            decreases n - steps,
        {
            let p = parent[t];
            proof {
                assert(matrix_view(graph@)[p as int] == graph@[p as int]@);
            }
            if graph[p][t] < path_flow {
                path_flow = graph[p][t];
            }
            t = p;
            steps = steps + 1;
        }
        if t != src {
            stuck = true;
            break;
        }
        s = t;
        let mut v = sink;
        let mut steps2: usize = 0;
        while v != src && steps2 < n
            invariant
                v < n,
                graph.len() == n,
                parent.len() == n,
                is_square(matrix_view(graph@)),
                forall|w: int| 0 <= w < n ==> (#[trigger] parent@[w]) < n,
            decreases n - steps2,
        {
            let u = parent[v];
            proof {
                assert(matrix_view(graph@)[u as int] == graph@[u as int]@);
                assert(matrix_view(graph@)[v as int] == graph@[v as int]@);
            }
            let forward = graph[u][v];
            let backward = graph[v][u];
            let ghost before = graph@;
            graph[u][v] = if forward >= path_flow { forward - path_flow } else { 0 };
            graph[v][u] = if backward <= usize::MAX - path_flow { backward + path_flow } else { usize::MAX };
            proof {
                assert forall|q: int| 0 <= q < matrix_view(graph@).len() implies (#[trigger] matrix_view(graph@)[q]).len() == matrix_view(graph@).len() by {
                    assert(matrix_view(graph@)[q] == graph@[q]@);
                    assert(matrix_view(before)[q] == before[q]@);
                }
            }
            v = u;
            steps2 = steps2 + 1;
        }
        augmented = true;
    }
    let ghost gm = matrix_view(graph@);
    let (reached, last) = bfs(src, sink, &mut parent, &graph);
    if reached || stuck {
        let all = all_edges(capacities);
        proof {
            assert forall|p: Seq<usize>| #[trigger] is_path(cap, p) implies
                exists|k: int| 0 <= k < p.len() - 1 && all@.contains((p[k], #[trigger] p[k + 1])) by {
                let z: int = 0;
                assert(cap[p[z] as int][p[z + 1] as int] > 0);
                assert(cap[p[z] as int] == capacities@[p[z] as int]@);
                assert(capacities@[p[z] as int]@[p[z + 1] as int] > 0);
                assert(all@.contains((p[z], p[z + 1])));
            }
        }
        return all;
    }
    let visited = dfs(&graph, s, Ghost(last@));
    let cut_set = collect_cut(&graph, capacities, &visited);
    proof {
        assert forall|p: Seq<usize>| #[trigger] is_path(cap, p) implies
            exists|k: int| 0 <= k < p.len() - 1 && cut_set@.contains((p[k], #[trigger] p[k + 1])) by {
            if !augmented {
                lemma_leaving(last@, p);
                let k = choose|k: int| 0 <= k < p.len() - 1 && last@[p[k] as int] && !last@[#[trigger] p[k + 1] as int];
                assert(cap[p[k] as int][p[k + 1] as int] > 0);
            } else {
                lemma_leaving(visited@, p);
                let k = choose|k: int| 0 <= k < p.len() - 1 && visited@[p[k] as int] && !visited@[#[trigger] p[k + 1] as int];
                assert(cap[p[k] as int][p[k + 1] as int] > 0);
                assert(gm[p[k] as int][p[k + 1] as int] == 0);
            }
        }
    }
    cut_set
}

} // verus!

verus! {

/// `n! / ((n - k)! k!)` as the factorials give it.
pub open spec fn binom(n: nat, k: nat) -> nat {
    fact(n) / (fact((n - k) as nat) * fact(k))
}

/// The ways the pair `(i, j)` of data-graph vertices can hold the two sides of
/// the cut, whose ends have `d1` and `d2` further neighbours.
pub open spec fn fragment_term(g: Matrix, d1: nat, d2: nat, i: int, j: int) -> nat {
    let a = (degree_in(g, i) - 1) as nat;
    let b = (degree_in(g, j) - 1) as nat;
    if i != j && a >= d1 && b >= d2 {
        binom(a, d1) * binom(b, d2)
    } else {
        0
    }
}

pub open spec fn fragment_row(g: Matrix, d1: nat, d2: nat, i: int) -> Seq<nat> {
    Seq::new(g.len(), |j: int| fragment_term(g, d1, d2, i, j))
}

pub open spec fn fragment_rows(g: Matrix, d1: nat, d2: nat) -> Seq<nat> {
    Seq::new(g.len(), |i: int| total(fragment_row(g, d1, d2, i)))
}

/// The fragment count of the data graph for the given side degrees.
pub open spec fn fragments(g: Matrix, d1: nat, d2: nat) -> nat {
    total(fragment_rows(g, d1, d2))
}

/// `n! / ((n - k)! k!)` can be computed through `u64` factorials.
pub open spec fn binom_ok(n: nat, k: nat) -> bool {
    fact(n) <= u64::MAX && fact((n - k) as nat) * fact(k) <= u64::MAX
}

/// The term of the pair `(i, j)` can be computed in `u64`.
pub open spec fn term_ok(g: Matrix, d1: nat, d2: nat, i: int, j: int) -> bool {
    let a = (degree_in(g, i) - 1) as nat;
    let b = (degree_in(g, j) - 1) as nat;
    i != j && a >= d1 && b >= d2 ==> binom_ok(a, d1) && binom_ok(b, d2) && binom(a, d1) * binom(b, d2) <= u64::MAX
}

/// The fragment count for the cut edge `(a, b)` of `pattern`: defined when both
/// ends and every data-graph vertex have a neighbour and every number involved
/// fits in `u64`.
pub open spec fn fragment_result(g: Matrix, pattern: Matrix, a: int, b: int) -> Option<nat> {
    let p1 = degree_in(pattern, a);
    let p2 = degree_in(pattern, b);
    if p1 >= 1 && p2 >= 1 && (forall|i: int| 0 <= i < g.len() ==> #[trigger] degree_in(g, i) >= 1)
        && (forall|i: int, j: int| 0 <= i < g.len() && 0 <= j < g.len() ==> #[trigger] term_ok(g, (p1 - 1) as nat, (p2 - 1) as nat, i, j))
        && fragments(g, (p1 - 1) as nat, (p2 - 1) as nat) <= u64::MAX {
        Some(fragments(g, (p1 - 1) as nat, (p2 - 1) as nat))
    } else {
        None
    }
}

/// Counts the fragments of `pattern` in `graph` for the cut edge `(ca, cb)`.
pub fn count_fragments_at(graph: &Vec<Vec<usize>>, pattern: &Vec<Vec<usize>>, ca: usize, cb: usize) -> (r: Option<u64>)
    requires
        is_square(matrix_view(graph@)),
        is_square(matrix_view(pattern@)),
        ca < pattern.len(),
        cb < pattern.len(),
    ensures
        r is Some <==> fragment_result(matrix_view(graph@), matrix_view(pattern@), ca as int, cb as int) is Some,
        r matches Some(x) ==> fragment_result(matrix_view(graph@), matrix_view(pattern@), ca as int, cb as int) == Some(x as nat),
{
    let ghost g = matrix_view(graph@);
    let ghost pv = matrix_view(pattern@);
    let p1 = get_node_degree(pattern, ca);
    let p2 = get_node_degree(pattern, cb);
    if p1 == 0 || p2 == 0 {
        return None;
    }
    let d1 = p1 - 1;
    let d2 = p2 - 1;
    let ghost rows = fragment_rows(g, d1 as nat, d2 as nat);
    let n = graph.len();
    let mut degs: Vec<usize> = Vec::new();
    let mut k: usize = 0;
    while k < n
        invariant
            k <= n,
            n == graph.len(),
            g == matrix_view(graph@),
            degs.len() == k,
            forall|q: int| 0 <= q < k ==> (#[trigger] degs@[q]) as nat == degree_in(g, q) && degs@[q] >= 1,
        decreases n - k,
    {
        let d = get_node_degree(graph, k);
        if d == 0 {
            return None;
        }
        degs.push(d);
        k = k + 1;
    }
    proof {
        assert forall|q: int| 0 <= q < g.len() implies #[trigger] degree_in(g, q) >= 1 by {
            assert(degs@[q] >= 1);
        }
    }
    let mut result: u64 = 0;
    let mut i: usize = 0;
    while i < n
        invariant
            i <= n,
            n == graph.len(),
            g == matrix_view(graph@),
            g.len() == n,
            degs.len() == n,
            rows == fragment_rows(g, d1 as nat, d2 as nat),
            rows.len() == n,
            pv == matrix_view(pattern@),
            p1 as nat == degree_in(pv, ca as int),
            p2 as nat == degree_in(pv, cb as int),
            d1 == p1 - 1,
            d2 == p2 - 1,
            forall|q: int| 0 <= q < n ==> (#[trigger] degs@[q]) as nat == degree_in(g, q) && degs@[q] >= 1,
            result == total(rows.take(i as int)),
            forall|x: int, y: int| 0 <= x < i && 0 <= y < n ==> #[trigger] term_ok(g, d1 as nat, d2 as nat, x, y),
        decreases n - i,
    {
        let ghost row = fragment_row(g, d1 as nat, d2 as nat, i as int);
        proof {
            assert(rows[i as int] == total(row));
        }
        let mut acc: u64 = 0;
        let mut j: usize = 0;
        while j < n
            invariant
                j <= n,
                i < n,
                n == graph.len(),
                g == matrix_view(graph@),
                g.len() == n,
                degs.len() == n,
                forall|q: int| 0 <= q < n ==> (#[trigger] degs@[q]) as nat == degree_in(g, q) && degs@[q] >= 1,
                row == fragment_row(g, d1 as nat, d2 as nat, i as int),
                rows == fragment_rows(g, d1 as nat, d2 as nat),
                rows.len() == n,
                rows[i as int] == total(row),
                pv == matrix_view(pattern@),
                p1 as nat == degree_in(pv, ca as int),
                p2 as nat == degree_in(pv, cb as int),
                d1 == p1 - 1,
                d2 == p2 - 1,
                acc == total(row.take(j as int)),
                forall|y: int| 0 <= y < j ==> #[trigger] term_ok(g, d1 as nat, d2 as nat, i as int, y),
            decreases n - j,
        {
            proof {
                lemma_total_step(row, j as int);
                crate::constants::lemma_total_prefix(row, j + 1);
            }
            let a = degs[i] - 1;
            let b = degs[j] - 1;
            if i != j && a >= d1 && b >= d2 {
                let c1 = match calculate_permutation(a as u64, d1 as u64) {
                    Some(c) => c,
                    None => {
                        proof {
                            assert(!term_ok(g, d1 as nat, d2 as nat, i as int, j as int));
                            assert(!term_ok(g, (degree_in(pv, ca as int) - 1) as nat, (degree_in(pv, cb as int) - 1) as nat, i as int, j as int));
                            assert(g == matrix_view(graph@) && pv == matrix_view(pattern@));
                            assert(fragment_result(g, pv, ca as int, cb as int) is None);
                        }
                        return None;
                    },
                };
                let c2 = match calculate_permutation(b as u64, d2 as u64) {
                    Some(c) => c,
                    None => {
                        proof {
                            assert(!term_ok(g, d1 as nat, d2 as nat, i as int, j as int));
                            assert(!term_ok(g, (degree_in(pv, ca as int) - 1) as nat, (degree_in(pv, cb as int) - 1) as nat, i as int, j as int));
                            assert(g == matrix_view(graph@) && pv == matrix_view(pattern@));
                            assert(fragment_result(g, pv, ca as int, cb as int) is None);
                        }
                        return None;
                    },
                };
                let t = match c1.checked_mul(c2) {
                    Some(t) => t,
                    None => {
                        proof {
                            assert(!term_ok(g, d1 as nat, d2 as nat, i as int, j as int));
                            assert(!term_ok(g, (degree_in(pv, ca as int) - 1) as nat, (degree_in(pv, cb as int) - 1) as nat, i as int, j as int));
                            assert(g == matrix_view(graph@) && pv == matrix_view(pattern@));
                            assert(fragment_result(g, pv, ca as int, cb as int) is None);
                        }
                        return None;
                    },
                };
                acc = match acc.checked_add(t) {
                    Some(v) => v,
                    None => {
                        proof {
                            assert(row[j as int] == t);
                            crate::constants::lemma_total_prefix(row, j + 1);
                            crate::constants::lemma_total_prefix(rows, i as int);
                            assert(total(rows) > u64::MAX);
                        }
                        return None;
                    },
                };
            }
            j = j + 1;
        }
        proof {
            assert(row.take(n as int) == row);
            lemma_total_step(rows, i as int);
            crate::constants::lemma_total_prefix(rows, i as int);
        }
        result = match result.checked_add(acc) {
            Some(v) => v,
            None => {
                proof {
                    assert(rows.take(i + 1).drop_last() == rows.take(i as int));
                    assert(total(rows.take(i + 1)) == total(rows.take(i as int)) + rows[i as int]);
                    crate::constants::lemma_total_prefix(rows, i + 1);
                    assert(total(rows) > u64::MAX);
                    assert(fragments(g, (degree_in(pv, ca as int) - 1) as nat, (degree_in(pv, cb as int) - 1) as nat) > u64::MAX);
                    assert(g == matrix_view(graph@) && pv == matrix_view(pattern@));
                    assert(fragment_result(g, pv, ca as int, cb as int) is None);
                }
                return None;
            },
        };
        i = i + 1;
    }
    proof {
        assert(rows.take(n as int) == rows);
    }
    Some(result)
}

/// Counts the fragments of `pattern` in `graph`, splitting the pattern at the
/// first edge of its minimum cut (see `count_fragments_at`). When a path leads
/// from the pattern's first vertex to its last, the result is the count for
/// some edge of the pattern; otherwise it may also be `None`, for an empty cut.
pub fn count_fragments(graph: &Vec<Vec<usize>>, pattern: &Vec<Vec<usize>>) -> (r: Option<u64>)
    requires
        is_square(matrix_view(graph@)),
        is_square(matrix_view(pattern@)),
        pattern.len() >= 1,
    ensures
        (r is None && forall|p: Seq<usize>| !#[trigger] is_path(matrix_view(pattern@), p))
            || exists|a: int, b: int| 0 <= a < pattern.len() && 0 <= b < pattern.len() && pattern@[a]@[b] > 0
                && (r matches Some(x) ==> fragment_result(matrix_view(graph@), matrix_view(pattern@), a, b) == Some(x as nat))
                && (r is None <==> fragment_result(matrix_view(graph@), matrix_view(pattern@), a, b) is None),
{
    let cut = min_cut(pattern);
    if cut.len() == 0 {
        proof {
            assert forall|p: Seq<usize>| !#[trigger] is_path(matrix_view(pattern@), p) by {
                if is_path(matrix_view(pattern@), p) {
                    let k = choose|k: int| 0 <= k < p.len() - 1 && cut@.contains((p[k], #[trigger] p[k + 1]));
                }
            }
        }
        return None;
    }
    let (ca, cb) = cut[0];
    let r = count_fragments_at(graph, pattern, ca, cb);
    proof {
        assert(pattern@[ca as int]@[cb as int] > 0);
    }
    r
}

/// The text of a shortcut found by fragment counting: `(+ n (Count c p))` for
/// `n` fragments and the shrunken pattern `p` counted `c` times.
pub open spec fn escape_rule_text(fragments: u64, num: i64, pattern: Seq<char>) -> Seq<char> {
    "(+ "@ + crate::text::int_text(fragments as int) + " (Count "@ + crate::text::int_text(num as int) + " "@ + pattern + "))"@
}

pub fn build_escape_rewrite_rule_string(num_fragments: u64, num: i64, pattern: &str) -> (r: String)
    ensures
        r@ == escape_rule_text(num_fragments, num, pattern@),
{
    let f = crate::text::u64_to_text(num_fragments);
    let c = crate::text::int_to_text(num);
    String::from_str("(+ ").concat(f.as_str()).concat(" (Count ").concat(c.as_str()).concat(" ").concat(pattern).concat("))")
}

} // verus!
