use motif_rewrite::fragments::{build_escape_rewrite_rule_string, count_fragments, count_fragments_at, get_node_degree, min_cut};

fn path() -> Vec<Vec<usize>> {
    vec![vec![0, 1, 0], vec![1, 0, 1], vec![0, 1, 0]]
}

fn diamond() -> Vec<Vec<usize>> {
    vec![vec![0, 1, 1, 1], vec![1, 0, 1, 0], vec![1, 1, 0, 1], vec![1, 0, 1, 0]]
}

#[test]
fn degrees_count_unit_entries() {
    assert_eq!(get_node_degree(&path(), 1), 2);
    assert_eq!(get_node_degree(&diamond(), 0), 3);
    assert_eq!(get_node_degree(&vec![vec![0, 2], vec![2, 0]], 0), 0);
}

#[test]
fn minimum_cuts() {
    assert_eq!(min_cut(&path()), vec![(0, 1)]);
    assert_eq!(min_cut(&diamond()), vec![(0, 2), (0, 3), (2, 3)]);
    assert_eq!(min_cut(&vec![vec![0, 0], vec![0, 0]]), Vec::<(usize, usize)>::new());
}

#[test]
fn fragment_counts() {
    assert_eq!(count_fragments(&diamond(), &path()), Some(18));
    assert_eq!(count_fragments(&diamond(), &vec![vec![0, 0], vec![0, 0]]), None);
    let isolated = vec![vec![0, 0], vec![0, 0]];
    assert_eq!(count_fragments(&isolated, &path()), None);
}

#[test]
fn fragment_rule_text() {
    assert_eq!(build_escape_rewrite_rule_string(18, -2, "(Match (-- a b))"), "(+ 18 (Count -2 (Match (-- a b))))");
}

#[test]
fn fragment_counts_at_a_given_edge() {
    assert_eq!(count_fragments_at(&diamond(), &path(), 0, 1), Some(18));
    assert_eq!(count_fragments_at(&diamond(), &path(), 1, 2), Some(18));
    let isolated = vec![vec![0, 1, 0], vec![1, 0, 0], vec![0, 0, 0]];
    assert_eq!(count_fragments_at(&isolated, &path(), 0, 1), None);
    assert_eq!(count_fragments_at(&diamond(), &vec![vec![0, 0], vec![0, 0]], 0, 1), None);
}

#[test]
fn cuts_separate_the_ends() {
    let g = vec![
        vec![0, 1, 1, 0, 0],
        vec![1, 0, 1, 1, 0],
        vec![1, 1, 0, 1, 0],
        vec![0, 1, 1, 0, 1],
        vec![0, 0, 0, 1, 0],
    ];
    let cut = min_cut(&g);
    let mut h = g.clone();
    for (i, j) in &cut {
        h[*i][*j] = 0;
        h[*j][*i] = 0;
    }
    let mut seen = vec![false; 5];
    let mut stack = vec![0];
    seen[0] = true;
    while let Some(u) = stack.pop() {
        for v in 0..5 {
            if h[u][v] > 0 && !seen[v] {
                seen[v] = true;
                stack.push(v);
            }
        }
    }
    assert!(!seen[4]);
}
