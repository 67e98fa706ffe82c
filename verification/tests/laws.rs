use lambda_microegg::{EGraph, Pattern, Rewrite};

#[test]
fn finding_twice_gives_the_same_placement() {
    let mut eg = EGraph::new();
    let a = eg.atom("a", 1);
    let x = eg.var(1, 0);
    let fx = eg.apps("f", vec![x]);
    eg.union(&fx, &a);
    eg.rebuild();
    let once = eg.find(&fx);
    assert_eq!(eg.find(&once), once);
}

#[test]
fn asking_twice_for_a_variable_adds_nothing() {
    let mut eg = EGraph::new();
    let first = eg.var(3, 1);
    let classes = eg.raw_id_count();
    let nodes = eg.node_count();
    let second = eg.var(3, 1);
    assert!(eg.equivalent(&first, &second));
    assert_eq!(eg.raw_id_count(), classes);
    assert_eq!(eg.node_count(), nodes);
    assert_eq!(first.lift().bits(), "010");
}

#[test]
fn substituting_an_unused_variable_drops_it() {
    let mut eg = EGraph::new();
    let a = eg.atom("a", 2);
    let b = eg.atom("b", 1);
    eg.rebuild();
    let result = eg.substitute(&a, 1, &b).unwrap();
    assert_eq!(result.raw(), a.raw());
    assert_eq!(result.lift().bits(), "0");
    let expected = eg.atom("a", 1);
    assert!(eg.equivalent(&result, &expected));
}

#[test]
fn an_extracted_atom_is_held_by_its_class() {
    let mut eg = EGraph::new();
    let a = eg.atom("a", 0);
    let fa = eg.apps("f", vec![a]);
    let b = eg.atom("b", 0);
    eg.union(&fa, &b);
    let extracted = eg.extract(&fa).unwrap();
    assert_eq!(extracted.to_string(), "b");
    assert!(eg.equivalent(&fa, &b));
}

#[test]
fn a_run_applies_an_atom_rule() {
    let mut eg = EGraph::new();
    let a = eg.atom("a", 0);
    eg.rebuild();
    let rule = Rewrite::new(Pattern::atom("a"), Pattern::atom("b")).unwrap();
    eg.run(&[rule], 1);
    let b = eg.atom("b", 0);
    assert!(eg.equivalent(&a, &b));
}

#[test]
fn fresh_classes_use_the_variables_of_their_parts() {
    let mut eg = EGraph::new();
    let x = eg.var(2, 0);
    assert_eq!(x.lift().bits(), "10");
    let zero = eg.atom("0", 2);
    assert_eq!(zero.lift().bits(), "00");
    let product = eg.apps("*", vec![x, zero]);
    assert_eq!(product.lift().bits(), "10");
    let uses_outer = eg.binder("lam", x);
    assert_eq!(uses_outer.lift().bits(), "1");
    let y = eg.var(2, 1);
    let uses_bound = eg.binder("lam", y);
    assert_eq!(uses_bound.lift().bits(), "0");
}
