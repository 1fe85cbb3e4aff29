use motif_rewrite::canon::{adjacency, permute_motif, read_permutation};
use motif_rewrite::graph::{calculate_permutation, count_edges, get_num_nodes, is_edge_induced, is_graph_complete};
use motif_rewrite::model::{formula_name, Formula, Link};
use motif_rewrite::morph::{escape_of, representative_motif, signed_term, Plan};
use motif_rewrite::parse::{alphabet_to_number, parse_motif, read_representative};
use motif_rewrite::protocol::{cost_motif, cost_request_lines, data_graph_lines, graph_file_lines, pattern_lines};
use motif_rewrite::provenance::{merge_provenance, same_provenance};
use motif_rewrite::escape::Escape;
use motif_rewrite::summary::{pattern_formula_to_string, summarize};
use motif_rewrite::table::{render_motif, render_pi, PatternTable};
use motif_rewrite::text::{int_to_text, number_to_alphabet, text_to_int};

fn words(lines: &[&str]) -> Vec<Vec<String>> {
    lines.iter().map(|l| l.split_whitespace().map(|w| w.to_string()).collect()).collect()
}

fn strings(lines: &[&str]) -> Vec<String> {
    lines.iter().map(|l| l.to_string()).collect()
}

#[test]
fn labels_count_in_base_26() {
    assert_eq!(number_to_alphabet(1), "a");
    assert_eq!(number_to_alphabet(26), "z");
    assert_eq!(number_to_alphabet(27), "aa");
    assert_eq!(number_to_alphabet(703), "aaa");
    assert_eq!(number_to_alphabet(0), "");
    assert_eq!(alphabet_to_number("aa"), Some(27));
    assert_eq!(alphabet_to_number(&number_to_alphabet(65536)), Some(65536));
    assert_eq!(alphabet_to_number(&number_to_alphabet(usize::MAX)), Some(usize::MAX));
    assert_eq!(alphabet_to_number("e"), Some(5));
    assert_eq!(alphabet_to_number("A"), None);
    assert_eq!(alphabet_to_number(""), Some(0));
    assert_eq!(alphabet_to_number(&number_to_alphabet(0)), Some(0));
}

#[test]
fn integers_as_text() {
    assert_eq!(int_to_text(-42), "-42");
    assert_eq!(int_to_text(0), "0");
    assert_eq!(text_to_int("1099511627776"), Some(1 << 40));
    assert_eq!(text_to_int("-7"), Some(-7));
    assert_eq!(text_to_int("007"), None);
    assert_eq!(text_to_int("x"), None);
}

#[test]
fn pairs_through_factorials() {
    assert_eq!(calculate_permutation(4, 2), Some(6));
    assert_eq!(calculate_permutation(5, 0), Some(1));
    assert_eq!(calculate_permutation(6, 3), Some(20));
    assert_eq!(calculate_permutation(20, 2), Some(190));
    assert_eq!(calculate_permutation(21, 2), None);
    assert!(is_graph_complete(3, 3));
    assert!(!is_graph_complete(2, 3));
    assert!(is_graph_complete(6, 4));
    assert!(is_graph_complete(210, 21));
    assert!(is_graph_complete(0, 1));
}

#[test]
fn motif_text_round_trip() {
    let text = "(Match (-- a b) (!- a c) (-- b c))";
    let m = parse_motif(text).unwrap();
    assert_eq!(m, vec![Link { u: 1, v: 2, anti: false }, Link { u: 1, v: 3, anti: true }, Link { u: 2, v: 3, anti: false }]);
    assert_eq!(render_motif(&m), text);
    assert_eq!(parse_motif("(Match (-- a b)  (-- b c))"), None);
    assert_eq!(parse_motif("(Match (<> a b))"), None);
    assert_eq!(parse_motif("(Match)"), Some(vec![]));
}

#[test]
fn motif_counts() {
    let m = parse_motif("(Match (-- a b) (!- a d) (-- b c))").unwrap();
    assert_eq!(get_num_nodes(&m), 4);
    assert_eq!(count_edges(&m, false), 2);
    assert_eq!(count_edges(&m, true), 3);
    assert!(!is_edge_induced(&m));
    assert_eq!(escape_of(&parse_motif("(Match (-- a d) (-- b d) (-- c d))").unwrap()), Some(Escape::ThreeStar));
    assert_eq!(escape_of(&m), None);
}

#[test]
fn provenance_merge_is_sorted_union() {
    assert_eq!(merge_provenance(&vec![0], &vec![1]), vec![0, 1]);
    assert_eq!(merge_provenance(&vec![3, 1], &vec![2, 1]), vec![1, 2, 3]);
    assert_eq!(merge_provenance(&vec![], &vec![]), Vec::<u32>::new());
    assert!(same_provenance(&vec![1, 2], &vec![1, 2]));
    assert!(!same_provenance(&vec![1, 2], &vec![2, 1]));
    assert_eq!(render_pi(&vec![0, 1]), "(Pi 0 1)");
}

#[test]
fn table_keeps_first_occurrence_order() {
    let mut t = PatternTable::new(2);
    t.record("b");
    t.record("a");
    t.record("b");
    assert_eq!(t.seen, vec!["b".to_string(), "a".to_string()]);
    assert!(!t.is_expanded("k"));
    t.mark_expanded("k");
    assert!(t.is_expanded("k"));
    assert_eq!(t.inputs, 2);
    assert_eq!(formula_name(Formula::F14), "F14");
}

#[test]
fn canonicalizer_request_file() {
    let m = parse_motif("(Match (-- a b) (-- b c))").unwrap();
    let adj = adjacency(&m, 3);
    assert_eq!(adj, vec![vec![0, 1, 0], vec![1, 0, 1], vec![0, 1, 0]]);
    assert_eq!(graph_file_lines(&adj), strings(&["p edge 3 2", "e 1 2", "e 2 3"]));
    assert_eq!(data_graph_lines(&adj), strings(&["1 2", "2 3"]));
}

#[test]
fn counter_pattern_file() {
    let m = parse_motif("(Match (-- a b) (!- a c) (-- b c))").unwrap();
    assert_eq!(pattern_lines(&m, true), strings(&["1 2", "1 3 1", "2 3"]));
    assert_eq!(pattern_lines(&m, false), strings(&["1 2", "2 3"]));
}

#[test]
fn cost_request_renumbers_vertices() {
    let m = parse_motif("(Match (-- a d) (!- a b) (-- b d) (-- c d))").unwrap();
    assert_eq!(cost_request_lines(&m), strings(&["1 2", "3 2", "4 2", "1 3 1"]));
}

#[test]
fn representative_read_back() {
    let rep = read_representative(&words(&["p edge 3 2", "e 1 2", "n 1 0", "e 2 3", "5"])).unwrap();
    assert_eq!(rep.adj, vec![vec![0, 1, 0], vec![1, 0, 1], vec![0, 1, 0]]);
    assert_eq!(rep.edges, 2);
    assert_eq!(rep.coefficient, Some(5));
    assert!(read_representative(&words(&["p edge 2 1", "e 1 3"])).is_none());
    let with_anti = representative_motif(&rep.adj, true);
    assert_eq!(render_motif(&with_anti), "(Match (-- a b) (!- a c) (-- b c))");
    assert_eq!(render_motif(&representative_motif(&rep.adj, false)), "(Match (-- a b) (-- b c))");
}

#[test]
fn subtraction_signs() {
    let plan = Plan { subtraction: true, edge_induced: false, nodes: 3, edges: 2 };
    assert_eq!(signed_term(&plan, 3, 4), (-4, true));
    assert_eq!(signed_term(&plan, 2, 4), (4, false));
    let induced = Plan { subtraction: true, edge_induced: true, nodes: 3, edges: 2 };
    assert_eq!(signed_term(&induced, 3, 4), (4, true));
    let counted = Plan { subtraction: false, edge_induced: false, nodes: 3, edges: 2 };
    assert_eq!(signed_term(&counted, 3, -2), (-2, true));
}

#[test]
fn canonical_relabelling() {
    let m = parse_motif("(Match (-- a c) (!- a b))").unwrap();
    let adj = adjacency(&m, 3);
    let perm = read_permutation(&words(&["0 2", "1 0", "2 1"]), 3).unwrap();
    assert_eq!(perm, vec![2, 0, 1]);
    assert_eq!(render_motif(&permute_motif(&adj, &m, &perm)), "(Match (-- a b) (!- b c))");
    assert_eq!(read_permutation(&words(&["0 1"]), 2), None);
}

#[test]
fn isomorphic_inputs_meet_in_one_form() {
    let first = parse_motif("(Match (-- a b) (-- b c))").unwrap();
    let second = parse_motif("(Match (-- a c) (-- b c))").unwrap();
    let a1 = adjacency(&first, 3);
    let a2 = adjacency(&second, 3);
    let p1 = read_permutation(&words(&["0 0", "1 1", "2 2"]), 3).unwrap();
    let p2 = read_permutation(&words(&["0 0", "1 2", "2 1"]), 3).unwrap();
    assert_eq!(permute_motif(&a1, &first, &p1), permute_motif(&a2, &second, &p2));
}

fn flat(nodes: &[(&str, &[usize])]) -> Vec<(String, Vec<usize>)> {
    nodes.iter().map(|(op, kids)| (op.to_string(), kids.to_vec())).collect()
}

#[test]
fn summaries_of_an_expression() {
    // (Union (Count 2 (Morph (Pi 0) (Match (-- a b)))) (Count -3 (Const (Pi 0) F1)))
    let nodes = flat(&[
        ("2", &[]), ("0", &[]), ("Pi", &[1]), ("a", &[]), ("b", &[]), ("--", &[3, 4]), ("Match", &[5]),
        ("Morph", &[2, 6]), ("Count", &[0, 7]), ("-3", &[]), ("F1", &[]), ("Const", &[2, 10]),
        ("Count", &[9, 11]), ("Union", &[8, 12]),
    ]);
    let weighted = summarize(&nodes, 13, true).unwrap();
    assert_eq!(weighted, vec![("(Match (-- a b))".to_string(), 2), ("F1".to_string(), -3)]);
    let counts = summarize(&nodes, 13, false).unwrap();
    assert_eq!(counts, vec![("(Match (-- a b))".to_string(), 1), ("F1".to_string(), 1)]);
    assert_eq!(pattern_formula_to_string(&weighted), "(Union (Count 2 (Match (-- a b))) (Count -3 F1))");
    assert_eq!(pattern_formula_to_string(&vec![]), "");
}

#[test]
fn summaries_add_repeated_keys() {
    let nodes = flat(&[
        ("0", &[]), ("Pi", &[0]), ("F2", &[]), ("Const", &[1, 2]), ("4", &[]), ("Count", &[4, 3]),
        ("5", &[]), ("Count", &[6, 3]), ("Union", &[5, 7]),
    ]);
    assert_eq!(summarize(&nodes, 8, true).unwrap(), vec![("F2".to_string(), 9)]);
    assert_eq!(summarize(&nodes, 8, false).unwrap(), vec![("F2".to_string(), 2)]);
}

#[test]
fn summaries_refuse_totals_beyond_i64() {
    let nodes = flat(&[
        ("0", &[]), ("Pi", &[0]), ("F2", &[]), ("Const", &[1, 2]), ("2", &[]), ("Count", &[4, 3]),
        ("9223372036854775807", &[]), ("Count", &[6, 5]),
    ]);
    assert_eq!(summarize(&nodes, 7, true), None);
    assert_eq!(summarize(&nodes, 7, false).unwrap(), vec![("F2".to_string(), 1)]);
    assert_eq!(summarize(&nodes, 5, true).unwrap(), vec![("F2".to_string(), 2)]);
}

#[test]
fn formula_keys_stand_for_small_motifs() {
    assert_eq!(render_motif(&cost_motif("F7").unwrap()), "(Match (-- a b) (-- a d) (-- b c) (-- c d))");
    assert_eq!(render_motif(&cost_motif("F3").unwrap()), "(Match (-- a b) (-- a c) (-- b c))");
    assert_eq!(render_motif(&cost_motif("(Match (-- a b))").unwrap()), "(Match (-- a b))");
    assert_eq!(cost_motif("junk"), None);
}
