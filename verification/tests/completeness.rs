use lambda_microegg::{DeBruijnLevel, EGraph, Pattern};

#[test]
fn an_atom_class_matches_its_atom() {
    let mut eg = EGraph::new();
    let a = eg.atom("a", 0);
    eg.rebuild();
    assert_eq!(eg.ematch(&Pattern::atom("a"), &a).len(), 1);
    assert_eq!(eg.ematch_lifted(&Pattern::atom("a"), &a).len(), 1);
    assert_eq!(eg.ematch(&Pattern::atom("b"), &a).len(), 0);
}

#[test]
fn a_variable_class_matches_its_level_when_lifted() {
    let mut eg = EGraph::new();
    let v = eg.var(2, 1);
    eg.rebuild();
    let level_one = Pattern::FVar(DeBruijnLevel::new(1));
    let level_zero = Pattern::FVar(DeBruijnLevel::new(0));
    assert_eq!(eg.ematch_lifted(&level_one, &v).len(), 1);
    assert_eq!(eg.ematch_lifted(&level_zero, &v).len(), 0);
}

#[test]
fn a_lone_metavariable_matches_once() {
    let mut eg = EGraph::new();
    let a = eg.atom("a", 0);
    let v = eg.var(1, 0);
    eg.rebuild();
    assert_eq!(eg.ematch(&Pattern::meta("?x"), &a).len(), 1);
    assert_eq!(eg.ematch(&Pattern::meta("?x"), &v).len(), 1);
    assert_eq!(eg.ematch_lifted(&Pattern::meta("?x"), &v).len(), 1);
}

#[test]
fn a_search_finds_a_held_atom() {
    let mut eg = EGraph::new();
    let a = eg.atom("a", 0);
    let _fa = eg.apps("f", vec![a]);
    let found = eg.search(&Pattern::atom("a"));
    assert_eq!(found.len(), 1);
    assert_eq!(found[0].0, 0);
    assert_eq!(eg.search(&Pattern::atom("c")).len(), 0);
}

#[test]
fn a_leaf_class_always_extracts() {
    let mut eg = EGraph::new();
    let a = eg.atom("a", 0);
    let v = eg.var(2, 0);
    let ta = eg.extract(&a).unwrap();
    assert_eq!(ta.display().to_string(), "a");
    let tv = eg.extract(&v).unwrap();
    assert_eq!(tv.scope, 2);
    assert_eq!(tv.display().to_string(), "$0");
}

#[test]
fn a_run_without_rules_stops_at_once() {
    let mut eg = EGraph::new();
    let a = eg.atom("a", 0);
    let _fa = eg.apps("f", vec![a]);
    let stats = eg.run(&[], 5);
    assert_eq!(stats.rounds, 0);
    assert_eq!(stats.unions, 0);
}
