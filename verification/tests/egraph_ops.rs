use lambda_microegg::{EGraph, Pattern, Rewrite};

#[test]
fn alpha_equivalence_and_shadowing() {
    let mut eg = EGraph::new();
    let var_x = eg.var(1, 0);
    let var_y = eg.var(1, 0);
    let id_x = eg.binder("lam", var_x);
    let id_y = eg.binder("lam", var_y);
    assert!(eg.equivalent(&id_x, &id_y));
    let outer_var = eg.var(2, 0);
    let inner_var = eg.var(2, 1);
    let outer_inner_lam = eg.binder("lam", outer_var);
    let inner_inner_lam = eg.binder("lam", inner_var);
    let outer = eg.binder("lam", outer_inner_lam);
    let inner = eg.binder("lam", inner_inner_lam);
    assert!(!eg.equivalent(&outer, &inner));
}

#[test]
fn free_variable_survives_binder() {
    let mut eg = EGraph::new();
    let free = eg.var(2, 0);
    let bound = eg.var(2, 1);
    let lam_free = eg.binder("lam", free);
    let lam_bound = eg.binder("lam", bound);
    assert_eq!(lam_free.lift().bits(), "1");
    assert_eq!(lam_bound.lift().bits(), "0");
    assert!(!eg.equivalent(&lam_free, &lam_bound));
}

#[test]
fn lift_pull_and_redundant_variable() {
    let mut eg = EGraph::new();
    let x = eg.var(2, 0);
    let y = eg.var(2, 1);
    let z = eg.atom("0", 2);
    let xz = eg.apps("*", vec![x, z]);
    let yz = eg.apps("*", vec![y, z]);
    assert_eq!(xz.lift().bits(), "10");
    assert_eq!(yz.lift().bits(), "01");
    eg.union(&xz, &z);
    eg.union(&yz, &z);
    eg.rebuild();
    assert!(eg.equivalent(&xz, &yz));
    assert_eq!(eg.find(&xz).lift().bits(), "00");
}

#[test]
fn binder_rebuild_after_union() {
    let mut eg = EGraph::new();
    let x = eg.var(1, 0);
    let z = eg.atom("0", 1);
    let xz = eg.apps("*", vec![x, z]);
    let lam_xz = eg.binder("lam", xz);
    let lam_z = eg.binder("lam", z);
    eg.union(&xz, &z);
    eg.rebuild();
    assert!(eg.equivalent(&lam_xz, &lam_z));
}

#[test]
fn ordinary_congruence_after_union() {
    let mut eg = EGraph::new();
    let a = eg.atom("a", 0);
    let b = eg.atom("b", 0);
    let fa = eg.apps("f", vec![a]);
    let fb = eg.apps("f", vec![b]);
    assert!(!eg.equivalent(&fa, &fb));
    assert!(eg.union(&a, &b));
    assert!(!eg.union(&a, &b));
    assert!(!eg.is_rebuilt());
    eg.rebuild();
    assert!(eg.is_rebuilt());
    assert!(eg.equivalent(&fa, &fb));
    assert_eq!(eg.node_count(), 4);
}

#[test]
fn union_reports_whether_it_changed_anything() {
    let mut eg = EGraph::new();
    let a = eg.atom("a", 0);
    assert!(!eg.union(&a, &a));
    let b = eg.atom("b", 0);
    assert!(eg.union(&a, &b));
    assert!(eg.equivalent(&a, &b));
    assert!(!eg.union(&b, &a));
}

#[test]
fn hash_consing_shares_equal_nodes() {
    let mut eg = EGraph::new();
    let a1 = eg.atom("a", 0);
    let a2 = eg.atom("a", 0);
    assert_eq!(a1, a2);
    let f1 = eg.apps("f", vec![a1]);
    let f2 = eg.apps("f", vec![a2]);
    assert!(eg.equivalent(&f1, &f2));
    assert_eq!(eg.node_count(), 3);
}

#[test]
fn match_and_rewrite_x_times_zero() {
    let mut eg = EGraph::new();
    let x = eg.var(2, 0);
    let y = eg.var(2, 1);
    let zero = eg.atom("0", 2);
    let xz = eg.apps("*", vec![x, zero]);
    let yz = eg.apps("*", vec![y, zero]);
    let lhs = Pattern::apps("*", vec![Pattern::meta("?x"), Pattern::atom("0")]);
    let x_matches = eg.ematch(&lhs, &xz);
    let y_matches = eg.ematch(&lhs, &yz);
    assert_eq!(x_matches.len(), 1);
    assert_eq!(y_matches.len(), 1);
    assert!(eg.equivalent(&x_matches[0].get("?x").unwrap(), &x));
    assert!(eg.equivalent(&y_matches[0].get("?x").unwrap(), &y));
    let rule = Rewrite::new(lhs, Pattern::atom("0")).unwrap();
    assert!(eg.run(&[rule], 1).unions > 0);
    assert!(eg.equivalent(&xz, &zero));
    assert!(eg.equivalent(&yz, &zero));
}

#[test]
fn run_reports_round_union_and_phase_statistics() {
    let mut eg = EGraph::new();
    let a = eg.atom("a", 0);
    let zero = eg.atom("0", 0);
    let product = eg.apps("*", vec![a, zero]);
    let rule = Rewrite::new(
        Pattern::apps("*", vec![Pattern::meta("?x"), Pattern::atom("0")]),
        Pattern::atom("0"),
    )
    .unwrap();

    let stats = eg.run(std::slice::from_ref(&rule), 1);
    assert_eq!(stats.rounds, 1);
    assert_eq!(stats.unions, 1);
    assert_eq!(
        stats.total_time(),
        stats.match_time + stats.apply_time + stats.rebuild_time
    );
    assert!(eg.equivalent(&product, &zero));

    let stats = eg.run(&[rule], 1);
    assert_eq!(stats.rounds, 0);
    assert_eq!(stats.unions, 0);
}

#[test]
fn repeated_metavariable_needs_equal_classes() {
    let mut eg = EGraph::new();
    let x = eg.var(2, 0);
    let y = eg.var(2, 1);
    let xy = eg.apps("*", vec![x, y]);
    let two = Pattern::apps("*", vec![Pattern::meta("?a"), Pattern::meta("?b")]);
    let matches = eg.ematch(&two, &xy);
    assert_eq!(matches.len(), 1);
    assert!(eg.equivalent(&matches[0].get("?a").unwrap(), &x));
    assert!(eg.equivalent(&matches[0].get("?b").unwrap(), &y));
    let repeated = Pattern::apps("*", vec![Pattern::meta("?a"), Pattern::meta("?a")]);
    assert!(eg.ematch(&repeated, &xy).is_empty());
}

#[test]
fn contextual_metavariable_cannot_capture_a_binder() {
    let mut eg = EGraph::new();
    let a = eg.atom("a", 0);
    let bound = eg.var(1, 0);
    let lam_bound = eg.binder("lam", bound);
    let term = eg.apps("pair", vec![a, lam_bound]);
    let pattern = Pattern::apps(
        "pair",
        vec![Pattern::meta("?x"), Pattern::binder("lam", Pattern::meta("?x"))],
    );
    assert!(eg.ematch(&pattern, &term).is_empty());
}

#[test]
fn substitute_an_arbitrary_context_variable() {
    let mut eg = EGraph::new();
    let x = eg.var(3, 0);
    let y = eg.var(3, 1);
    let z = eg.var(3, 2);
    let body = eg.apps("triple", vec![x, y, z]);
    let left = eg.var(2, 0);
    let right = eg.var(2, 1);
    let replacement = eg.apps("pair", vec![left, right]);

    let result = eg.substitute(&body, 1, &replacement).unwrap();
    let expected = eg.apps("triple", vec![left, replacement, right]);
    assert!(eg.equivalent(&result, &expected));
}

#[test]
fn extract_prefers_the_smaller_term() {
    let mut eg = EGraph::new();
    let a = eg.atom("a", 0);
    let zero = eg.atom("0", 0);
    let product = eg.apps("*", vec![a, zero]);
    eg.union(&product, &zero);
    eg.rebuild();
    let best = eg.extract(&product).unwrap();
    assert_eq!(best.to_string(), "0");
    assert_eq!(best.display().to_string(), "0");
}

#[test]
fn extract_names_binders() {
    let mut eg = EGraph::new();
    let x = eg.var(1, 0);
    let body = eg.apps("f", vec![x]);
    let lam = eg.binder("lam", body);
    let term = eg.extract(&lam).unwrap();
    assert_eq!(term.display().to_string(), "(@lam x0 (f x0))");
}

#[test]
fn class_and_node_counts() {
    let mut eg = EGraph::new();
    assert_eq!(eg.class_count(), 0);
    assert_eq!(eg.node_count(), 0);
    let a = eg.atom("a", 0);
    let b = eg.atom("b", 0);
    assert_eq!(eg.class_count(), 2);
    eg.union(&a, &b);
    eg.rebuild();
    assert_eq!(eg.class_count(), 1);
    assert_eq!(eg.node_count(), 2);
    assert!(eg.dump().starts_with("egraph: 1 classes, 2 e-nodes"));
}
