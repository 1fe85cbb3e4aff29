use egg::{Id, Pattern, RecExpr, Rewrite, Runner, SymbolLang};
use motif_rewrite::escape::{escape, escape_motif, Escape};
use motif_rewrite::insert::{initial_store, insert_expr, insert_motif, insert_num, insert_pi, Expr};
use motif_rewrite::model::{Formula, Link};
use motif_rewrite::morph::{begin_expansion, expand};
use motif_rewrite::parse::parse_motif;
use motif_rewrite::rules::{count_mult, read_motif, read_num, read_pi, union_dedup};
use motif_rewrite::store::{new_store, store_add, store_node, store_union, Store};
use motif_rewrite::table::{render_morph_key, PatternTable};

fn motif(text: &str) -> Vec<Link> {
    parse_motif(text).unwrap()
}

fn class_of(store: &mut Store, text: &str) -> Option<Id> {
    store.graph.rebuild();
    let expr: RecExpr<SymbolLang> = text.parse().unwrap();
    store.graph.lookup_expr(&expr).map(|id| store.graph.find(id))
}

fn same_class(store: &mut Store, id: usize, text: &str) -> bool {
    let c = class_of(store, text);
    c.is_some() && c == Some(store.graph.find(Id::from(id)))
}

const TRIANGLE: &str = "(Match (-- a b) (-- a c) (-- b c))";
const STAR: &str = "(Match (-- a d) (-- b d) (-- c d))";
const PATH: &str = "(Match (-- a b) (-- b c))";

#[test]
fn inserting_twice_gives_one_class() {
    let mut store = new_store();
    let a = insert_motif(&mut store, &motif(PATH));
    let b = insert_motif(&mut store, &motif(PATH));
    assert_eq!(a, b);
    let leaf = store_add(&mut store, "x", &vec![]);
    let again = store_add(&mut store, "x", &vec![]);
    assert_eq!(leaf, again);
    let e = Expr::Count(3, Box::new(Expr::Morph(vec![0], motif(PATH))));
    assert_eq!(insert_expr(&mut store, &e), insert_expr(&mut store, &e));
}

#[test]
fn store_union_and_find() {
    let mut store = new_store();
    let x = store_add(&mut store, "x", &vec![]);
    let y = store_add(&mut store, "y", &vec![]);
    assert_ne!(store.graph.find(Id::from(x)), store.graph.find(Id::from(y)));
    assert!(store_union(&mut store, x, y));
    assert!(!store_union(&mut store, x, y));
    assert_eq!(store.graph.find(Id::from(x)), store.graph.find(Id::from(y)));
    let f = store_add(&mut store, "f", &vec![x, y]);
    let (op, kids) = store_node(&store, f);
    assert_eq!(op, "f");
    let root = usize::from(store.graph.find(Id::from(x)));
    assert_eq!(kids, vec![root, root]);
}

#[test]
fn union_orders_meet_after_saturation() {
    let mut store = new_store();
    let a = Expr::Count(1, Box::new(Expr::Morph(vec![0], motif(PATH))));
    let b = Expr::Count(2, Box::new(Expr::Morph(vec![1], motif(TRIANGLE))));
    let ab = insert_expr(&mut store, &Expr::Union(Box::new(a), Box::new(b)));
    let lhs: Pattern<SymbolLang> = "(Union ?a ?b)".parse().unwrap();
    let rhs: Pattern<SymbolLang> = "(Union ?b ?a)".parse().unwrap();
    let rules = vec![Rewrite::new("union_switch", lhs, rhs).unwrap()];
    let runner = Runner::default().with_iter_limit(5).with_egraph(store.graph).run(&rules);
    let mut store = Store { graph: runner.egraph };
    let ba = format!("(Union (Count 2 (Morph (Pi 1) {})) (Count 1 (Morph (Pi 0) {})))", TRIANGLE, PATH);
    assert!(same_class(&mut store, ab, &ba));
}

#[test]
fn nested_counts_multiply() {
    let mut store = new_store();
    let rest = insert_motif(&mut store, &motif(PATH));
    let e = Expr::Count(3, Box::new(Expr::Count(4, Box::new(Expr::Morph(vec![0], motif(PATH))))));
    let m = insert_expr(&mut store, &e);
    let morph = insert_expr(&mut store, &Expr::Morph(vec![0], motif(PATH)));
    let r = count_mult(&mut store, m, 3, 4, morph);
    assert!(r.is_some());
    assert!(same_class(&mut store, m, &format!("(Count 12 (Morph (Pi 0) {}))", PATH)));
    let _ = rest;
}

#[test]
fn overflowing_product_is_rejected() {
    let mut store = new_store();
    let m = insert_num(&mut store, 1);
    let rest = insert_num(&mut store, 2);
    let big: i64 = 1 << 40;
    let before = store.graph.total_size();
    assert_eq!(count_mult(&mut store, m, big, big, rest), None);
    assert_eq!(store.graph.total_size(), before);
    assert!(count_mult(&mut store, m, -3, 5, rest).is_some());
    assert!(same_class(&mut store, m, "(Count -15 2)"));
}

#[test]
fn cancelling_counts_collapse_to_zero_constant() {
    let mut store = new_store();
    let x = motif(PATH);
    let a = Expr::Count(5, Box::new(Expr::Morph(vec![0], x.clone())));
    let b = Expr::Count(-5, Box::new(Expr::Morph(vec![0], x.clone())));
    let m = insert_expr(&mut store, &Expr::Union(Box::new(a), Box::new(b)));
    let pi = insert_pi(&mut store, &vec![0]);
    let pat = insert_motif(&mut store, &x);
    let p = read_pi(&store, pi).unwrap();
    assert_eq!(p, vec![0]);
    let r = union_dedup(&mut store, m, 5, -5, &p, &p, pi, pat, true);
    assert!(r.is_some());
    assert!(same_class(&mut store, m, "(Count 1 (Const (Pi 0) F0))"));
}

#[test]
fn same_tag_counts_are_summed() {
    let mut store = new_store();
    let x = motif(PATH);
    let m = insert_num(&mut store, 9);
    let pi = insert_pi(&mut store, &vec![2]);
    let pat = insert_motif(&mut store, &x);
    assert!(union_dedup(&mut store, m, 2, 3, &vec![2], &vec![2], pi, pat, true).is_some());
    assert!(same_class(&mut store, m, &format!("(Count 5 (Morph (Pi 2) {}))", PATH)));
}

#[test]
fn different_tags_merge_provenance() {
    let mut store = new_store();
    let x = motif(PATH);
    let a = Expr::Count(1, Box::new(Expr::Morph(vec![0], x.clone())));
    let b = Expr::Count(1, Box::new(Expr::Morph(vec![1], x.clone())));
    let m = insert_expr(&mut store, &Expr::Union(Box::new(a), Box::new(b)));
    let pi0 = insert_pi(&mut store, &vec![0]);
    let pat = insert_motif(&mut store, &x);
    assert!(union_dedup(&mut store, m, 1, 1, &vec![0], &vec![1], pi0, pat, true).is_some());
    assert!(same_class(&mut store, m, &format!("(Count 2 (Morph (Pi 0 1) {}))", PATH)));
}

#[test]
fn constant_counts_merge_provenance() {
    let mut store = new_store();
    let m = insert_num(&mut store, 7);
    let pi0 = insert_pi(&mut store, &vec![1]);
    let f = store_add(&mut store, "F5", &vec![]);
    assert!(union_dedup(&mut store, m, 2, 1, &vec![1], &vec![0], pi0, f, false).is_some());
    assert!(same_class(&mut store, m, "(Count 3 (Const (Pi 0 1) F5))"));
}

#[test]
fn overflowing_sum_is_rejected() {
    let mut store = new_store();
    let m = insert_num(&mut store, 7);
    let pi = insert_pi(&mut store, &vec![0]);
    assert_eq!(union_dedup(&mut store, m, i64::MAX, 1, &vec![0], &vec![0], pi, pi, true), None);
}

#[test]
fn reading_values_back() {
    let mut store = new_store();
    let n = insert_num(&mut store, -42);
    assert_eq!(read_num(&store, n), Some(-42));
    let p = insert_pi(&mut store, &vec![0, 3]);
    assert_eq!(read_pi(&store, p), Some(vec![0, 3]));
    assert_eq!(read_pi(&store, n), None);
    let m = insert_motif(&mut store, &motif("(Match (-- a b) (!- a c))"));
    assert_eq!(read_motif(&store, m), Some(motif("(Match (-- a b) (!- a c))")));
}

#[test]
fn triangle_is_never_expanded() {
    let mut table = PatternTable::new(1);
    let t = motif(TRIANGLE);
    assert!(begin_expansion(&mut table, &vec![0], &t).is_none());
    let (mut store, root) = initial_store(&vec![t]);
    assert!(same_class(&mut store, root, &format!("(Count 1 (Morph (Pi 0) {}))", TRIANGLE)));
}

#[test]
fn three_star_takes_its_shortcut() {
    let mut store = new_store();
    let mut table = PatternTable::new(1);
    let star = motif(STAR);
    assert_eq!(escape_motif(Escape::ThreeStar), star);
    assert!(begin_expansion(&mut table, &vec![0], &star).is_none());
    let m = insert_expr(&mut store, &Expr::Morph(vec![0], star.clone()));
    let prov = insert_num(&mut store, 0);
    escape(&mut store, &mut table, m, prov, Escape::ThreeStar);
    assert!(same_class(&mut store, m, "(Count 1 (Const (Pi 0) Fa))"));
    assert!(table.seen.is_empty());
}

#[test]
fn n3_shortcut_subtracts_three_motifs() {
    let mut store = new_store();
    let mut table = PatternTable::new(1);
    let m = insert_expr(&mut store, &Expr::Morph(vec![4], escape_motif(Escape::N3)));
    let prov = insert_num(&mut store, 4);
    escape(&mut store, &mut table, m, prov, Escape::N3);
    let expected = "(Union (Union (Union (Count 1 (Const (Pi 4) F3)) (Count -4 (Morph (Pi 4) (Match (-- a b) (-- a c) (-- b d) (-- c d))))) (Count -2 (Morph (Pi 4) (Match (-- a d) (-- b c) (-- b d) (-- c d))))) (Count -3 (Morph (Pi 4) (Match (-- a b) (-- a c) (-- b c)))))";
    assert!(same_class(&mut store, m, expected));
    assert_eq!(table.seen, vec![
        "(Match (-- a b) (-- a c) (-- b d) (-- c d))".to_string(),
        "(Match (-- a d) (-- b c) (-- b d) (-- c d))".to_string(),
        "(Match (-- a b) (-- a c) (-- b c))".to_string(),
    ]);
}

#[test]
fn three_path_puts_its_count_first() {
    let mut store = new_store();
    let mut table = PatternTable::new(1);
    let m = insert_expr(&mut store, &Expr::Morph(vec![0], escape_motif(Escape::ThreePath)));
    let prov = insert_num(&mut store, 0);
    escape(&mut store, &mut table, m, prov, Escape::ThreePath);
    let expected = format!("(Union (Count -3 (Morph (Pi 0) {})) (Count 1 (Const (Pi 0) Fb)))", TRIANGLE);
    assert!(same_class(&mut store, m, &expected));
}

#[test]
fn diamond_records_its_constant() {
    let mut store = new_store();
    let mut table = PatternTable::new(1);
    let m = insert_expr(&mut store, &Expr::Morph(vec![0], escape_motif(Escape::Diamond)));
    let prov = insert_num(&mut store, 0);
    escape(&mut store, &mut table, m, prov, Escape::Diamond);
    assert_eq!(table.seen, vec!["Fe".to_string()]);
}

#[test]
fn expansion_is_guarded_once() {
    let mut table = PatternTable::new(1);
    let p = motif(PATH);
    let key = render_morph_key(&vec![0], &p);
    assert_eq!(key, format!("(Pi 0) {}", PATH));
    let plan = begin_expansion(&mut table, &vec![0], &p).unwrap();
    assert!(plan.subtraction);
    assert!(plan.edge_induced);
    assert_eq!(plan.nodes, 3);
    assert_eq!(plan.edges, 2);
    assert!(begin_expansion(&mut table, &vec![0], &p).is_none());
    let partial = motif("(Match (-- a b) (!- a c))");
    let plan2 = begin_expansion(&mut table, &vec![0], &partial).unwrap();
    assert!(!plan2.subtraction);
    assert!(!plan2.edge_induced);
    let closed = motif("(Match (-- a b) (!- a c) (-- b c))");
    assert!(begin_expansion(&mut table, &vec![0], &closed).unwrap().subtraction);
    assert!(begin_expansion(&mut table, &vec![1], &p).is_some());
    assert!(table.is_expanded(&render_morph_key(&vec![1], &p)));
}

#[test]
fn expansion_builds_the_union() {
    let mut store = new_store();
    let mut table = PatternTable::new(1);
    let m = insert_expr(&mut store, &Expr::Morph(vec![0], motif(PATH)));
    let pi = insert_pi(&mut store, &vec![0]);
    let terms = vec![(1, motif(PATH)), (0, motif(STAR)), (-3, motif(TRIANGLE))];
    let (_, merged) = expand(&mut store, &mut table, m, pi, &terms);
    assert!(merged);
    let expected = format!("(Union (Count -3 (Morph (Pi 0) {})) (Count 1 (Morph (Pi 0) {})))", TRIANGLE, PATH);
    assert!(same_class(&mut store, m, &expected));
    assert_eq!(table.seen, vec![PATH.to_string(), TRIANGLE.to_string()]);
}

#[test]
fn all_zero_expansion_is_zero_constant() {
    let mut store = new_store();
    let mut table = PatternTable::new(1);
    let m = insert_expr(&mut store, &Expr::Morph(vec![0], motif(PATH)));
    let pi = insert_pi(&mut store, &vec![0]);
    let zeros = vec![(0, motif(PATH))];
    let (_, merged) = expand(&mut store, &mut table, m, pi, &zeros);
    assert!(merged);
    assert!(same_class(&mut store, m, "(Count 1 (Const (Pi 0) F0))"));
    assert!(table.seen.is_empty());
}

#[test]
fn constant_expression_is_inserted() {
    let mut store = new_store();
    let c = insert_expr(&mut store, &Expr::Const(vec![0, 1], Formula::F9));
    assert!(same_class(&mut store, c, "(Const (Pi 0 1) F9)"));
}

const ALL: [Escape; 15] = [
    Escape::ThreeStar, Escape::Diamond, Escape::ThreePath, Escape::TailedTriangle, Escape::N1, Escape::N2,
    Escape::N3, Escape::N4, Escape::N5, Escape::N6, Escape::N7, Escape::N9, Escape::N10, Escape::N11, Escape::N14,
];

#[test]
fn every_shortcut_is_found_and_applies() {
    for kind in ALL {
        let m = escape_motif(kind);
        assert_eq!(motif_rewrite::morph::escape_of(&m), Some(kind));
        let mut store = new_store();
        let mut table = PatternTable::new(1);
        let id = insert_expr(&mut store, &Expr::Morph(vec![0], m));
        let prov = insert_num(&mut store, 0);
        let (_, merged) = escape(&mut store, &mut table, id, prov, kind);
        assert!(merged);
    }
}

#[test]
fn starting_store_joins_inputs_left_to_right() {
    let (mut store, root) = initial_store(&vec![motif(PATH), motif(STAR)]);
    let expected = format!("(Union (Count 1 (Morph (Pi 0) {})) (Count 1 (Morph (Pi 1) {})))", PATH, STAR);
    assert!(same_class(&mut store, root, &expected));
}

#[test]
fn large_cliques_are_never_expanded() {
    let mut links = vec![];
    for u in 1..=21usize {
        for v in (u + 1)..=21usize {
            links.push(Link { u, v, anti: false });
        }
    }
    let mut table = PatternTable::new(1);
    assert!(begin_expansion(&mut table, &vec![0], &links).is_none());
    links[0].anti = true;
    let plan = begin_expansion(&mut table, &vec![0], &links).unwrap();
    assert!(plan.subtraction);
}

#[test]
fn reinserting_a_term_adds_nothing() {
    let mut store = new_store();
    let e = Expr::Union(
        Box::new(Expr::Count(2, Box::new(Expr::Morph(vec![0, 1], motif(TRIANGLE))))),
        Box::new(Expr::Const(vec![1], Formula::F3)),
    );
    let a = insert_expr(&mut store, &e);
    let size = store.graph.total_size();
    let b = insert_expr(&mut store, &e);
    assert_eq!(a, b);
    assert_eq!(store.graph.total_size(), size);
    let m = insert_motif(&mut store, &motif(TRIANGLE));
    assert_eq!(store.graph.total_size(), size);
    assert_eq!(insert_motif(&mut store, &motif(TRIANGLE)), m);
}
