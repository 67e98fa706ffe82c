use lambda_microegg::{add_syntax_term, parse_forms, EGraph, Pattern};

#[test]
fn rebuild_keeps_hash_consed_nodes() {
    let mut eg = EGraph::new();
    let a = eg.atom("a", 0);
    let b = eg.atom("b", 0);
    let fa = eg.apps("f", vec![a]);
    let fb = eg.apps("f", vec![b]);
    eg.union(&a, &b);
    eg.rebuild();
    let nodes = eg.node_count();
    let again = eg.apps("f", vec![a]);
    assert!(eg.equivalent(&again, &fa));
    assert!(eg.equivalent(&again, &fb));
    assert_eq!(eg.node_count(), nodes);
}

#[test]
fn applying_twice_gives_one_class() {
    let mut eg = EGraph::new();
    let f = eg.atom("f", 1);
    let x = eg.var(1, 0);
    let first = eg.app(f, x);
    let nodes = eg.node_count();
    let second = eg.app(f, x);
    assert_eq!(first, second);
    assert_eq!(eg.node_count(), nodes);
}

#[test]
fn union_keeps_what_a_class_holds() {
    let mut eg = EGraph::new();
    let a = eg.atom("a", 0);
    let b = eg.atom("b", 0);
    let fa = eg.apps("f", vec![a]);
    let gb = eg.apps("g", vec![b]);
    eg.union(&fa, &gb);
    let nodes = eg.node_count();
    let again = eg.apps("f", vec![a]);
    assert!(eg.equivalent(&again, &gb));
    assert_eq!(eg.node_count(), nodes);
}

#[test]
fn an_added_term_is_held_by_its_class() {
    let mut eg = EGraph::new();
    let forms = parse_forms("(f a [g b] (@lam x x))").unwrap();
    let first = add_syntax_term(&mut eg, &forms[0], 0).unwrap();
    let nodes = eg.node_count();
    let second = add_syntax_term(&mut eg, &forms[0], 0).unwrap();
    assert!(eg.equivalent(&first, &second));
    assert_eq!(eg.node_count(), nodes);
    let a = eg.atom("a", 0);
    let g = eg.atom("g", 0);
    let b = eg.atom("b", 0);
    let gb = eg.app(g, b);
    let x = eg.var(1, 0);
    let lam = eg.binder("lam", x);
    let built = eg.apps("f", vec![a, gb, lam]);
    assert!(eg.equivalent(&built, &first));
    assert_eq!(eg.node_count(), nodes);
}

#[test]
fn an_added_term_extracts_back() {
    let mut eg = EGraph::new();
    let forms = parse_forms("(f a b)").unwrap();
    let id = add_syntax_term(&mut eg, &forms[0], 0).unwrap();
    let term = eg.extract(&id).unwrap();
    assert_eq!(term.display().to_string(), "(f a b)");
}

#[test]
fn an_outer_variable_is_a_context_variable() {
    let mut eg = EGraph::new();
    let forms = parse_forms("(h $1)").unwrap();
    let id = add_syntax_term(&mut eg, &forms[0], 2).unwrap();
    let v = eg.var(2, 1);
    let expected = eg.apps("h", vec![v]);
    assert_eq!(eg.find(&id), eg.find(&expected));
}

#[test]
fn instantiating_a_metavariable_gives_its_binding() {
    let mut eg = EGraph::new();
    let a = eg.atom("a", 0);
    let fa = eg.apps("f", vec![a]);
    let lhs = Pattern::apps("f", vec![Pattern::meta("?x")]);
    let matches = eg.ematch(&lhs, &fa);
    assert_eq!(matches.len(), 1);
    let x = eg.try_instantiate(&Pattern::meta("?x"), 0, &matches[0]).unwrap();
    assert!(eg.equivalent(&x, &a));
    let gx = eg.try_instantiate(&Pattern::apps("g", vec![Pattern::meta("?x")]), 0, &matches[0]).unwrap();
    let ga = eg.apps("g", vec![a]);
    assert!(eg.equivalent(&gx, &ga));
}
