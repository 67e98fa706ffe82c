use lambda_microegg::{add_syntax_term, parse_forms, run_script, syntax_match_pattern, syntax_pattern, EGraph, Pattern, Rewrite};

fn pattern(text: &str) -> Pattern {
    syntax_pattern(&parse_forms(text).unwrap()[0]).unwrap()
}

#[test]
fn sexp_reset_clears_substitution_rewrites() {
    let output = run_script(
        r#"
            (rewrite [(@lam x {?body x}) ?arg] {?body ?arg})
            (reset)
            (insert [(@lam x x) a])
            (run 4)
            (extract [(@lam x x) a])
        "#,
    )
    .unwrap();
    assert_eq!(output.last().unwrap(), "((@lam x0 x0) a)");
}

#[test]
fn sexp_subst_builtin_is_available_on_rewrite_right_hand_sides() {
    let output = run_script(
        r#"
            (insert 1 [(@lam x x) $0])
            (rewrite [(@lam x {?body x}) ?arg] (#subst {?body x} x ?arg))
            (run 6)
            (extract 1 [(@lam x x) $0])
        "#,
    )
    .unwrap();
    assert_eq!(output.last().unwrap(), "$0");
}

#[test]
fn rewrites_are_validated_before_running() {
    let error = run_script("(rewrite (#subst $0 $0 fred) fred)").unwrap_err();
    assert!(error.contains("#subst is only allowed on a rewrite right-hand side"));

    let error = run_script("(rewrite ?x ?y)").unwrap_err();
    assert!(error.contains("unbound metavariable '?y'"));

    let error = run_script("(rewrite (@lam x {?a x}) (@lam x ?a))").unwrap_err();
    assert!(error.contains("has arity 1 on the left and 0 on the right"));
}

#[test]
fn printed_quoted_atoms_round_trip() {
    let mut eg = EGraph::new();
    let id = add_syntax_term(&mut eg, &parse_forms("\"a b\"").unwrap()[0], 0).unwrap();
    let printed = eg.extract(&id).unwrap().to_string();
    assert_eq!(printed, "\"a b\"");
    let reparsed = add_syntax_term(&mut eg, &parse_forms(&printed).unwrap()[0], 0).unwrap();
    assert!(eg.equivalent(&id, &reparsed));
}

#[test]
fn miller_metavariable_must_name_a_captured_binder() {
    let mut eg = EGraph::new();
    let bound = eg.var(1, 0);
    let term = eg.binder("lam", bound);
    let bare = pattern("(@lam x ?a)");
    let allowed = pattern("(@lam x {?a x})");

    assert!(eg.ematch(&bare, &term).is_empty());
    let matches = eg.ematch(&allowed, &term);
    assert_eq!(matches.len(), 1);
    assert!(eg.equivalent(&matches[0].get("?a").unwrap(), &bound));
}

#[test]
fn sexp_frontend_uses_miller_binder_lists() {
    let output = run_script(
        r#"
            (insert (@lam x x))
            (rewrite (@lam x ?a) misses)
            (rewrite (@lam x {?a x}) matches)
            (run 4)
            (extract (@lam x x))
        "#,
    )
    .unwrap();
    assert_eq!(output.last().unwrap(), "matches");
}

#[test]
fn miller_metavariable_implicitly_keeps_the_top_scope() {
    let mut eg = EGraph::new();
    let outer = eg.var(1, 0);
    let outer_under_binder = outer.in_context(2).unwrap();
    let term = eg.binder("lam", outer_under_binder);
    let pattern = pattern("(@lam x ?a)");

    let matches = eg.ematch(&pattern, &term);
    assert_eq!(matches.len(), 1);
    assert!(eg.equivalent(&matches[0].get("?a").unwrap(), &outer));
}

#[test]
fn miller_arguments_can_select_a_later_nested_binder() {
    let mut eg = EGraph::new();
    let inner = eg.var(2, 1);
    let inner_lambda = eg.binder("lam", inner);
    let term = eg.binder("lam", inner_lambda);
    let pattern = pattern("(@lam x (@lam y {?f y}))");

    let subst = eg.ematch(&pattern, &term).pop().unwrap();
    let rebuilt = eg.try_instantiate(&pattern, 0, &subst).unwrap();
    assert!(eg.equivalent(&rebuilt, &term));
}

#[test]
fn miller_indices_count_outward_from_the_nearest_pattern_binder() {
    let mut eg = EGraph::new();
    let outer = eg.var(2, 0);
    let inner_lambda = eg.binder("lam", outer);
    let term = eg.binder("lam", inner_lambda);
    let pattern = pattern("(@lam x (@lam y {?f x}))");

    let subst = eg.ematch(&pattern, &term).pop().unwrap();
    let rebuilt = eg.try_instantiate(&pattern, 0, &subst).unwrap();
    assert!(eg.equivalent(&rebuilt, &term));
}

#[test]
fn miller_arguments_must_be_distinct_bound_variables() {
    assert!(syntax_match_pattern(&parse_forms("(@lam x {?a x x})").unwrap()[0])
        .unwrap_err()
        .contains("repeats"));
    let mut eg = EGraph::new();
    let bound = eg.var(1, 0);
    let _term = eg.binder("lam", bound);
    assert!(syntax_match_pattern(&parse_forms("(@lam x {?a y})").unwrap()[0])
        .unwrap_err()
        .contains("may only be applied to bound variables"));
}

#[test]
fn miller_rhs_application_substitutes_arbitrary_terms() {
    let output = run_script(
        r#"
            (insert (@lam x x))
            (rewrite (@lam x {?a x}) {?a (foo biz)})
            (run 4)
            (guard (@lam x x) (foo biz))
        "#,
    )
    .unwrap();
    assert_eq!(output.last().unwrap(), "; guard passed");
}

#[test]
fn miller_rhs_application_can_permute_parameters() {
    let output = run_script(
        r#"
            (insert (@lam x (@lam y (pair x y))))
            (rewrite
                (@lam x (@lam y {?a x y}))
                (@lam x (@lam y {?a y x})))
            (run 4)
            (guard
                (@lam x (@lam y (pair x y)))
                (@lam x (@lam y (pair y x))))
        "#,
    )
    .unwrap();
    assert_eq!(output.last().unwrap(), "; guard passed");
}

#[test]
fn permuted_lhs_arguments_are_rejected() {
    let error = run_script("(rewrite (@lam x (@lam y {?a y x})) (@lam x (@lam y {?a x y})))").unwrap_err();
    assert!(error.contains("write {?a x y}"));
    assert!(error.contains("permute its arguments on the rewrite right-hand side"));
}

#[test]
fn miller_matching_is_read_only() {
    let mut eg = EGraph::new();
    let x = eg.var(2, 0);
    let y = eg.var(2, 1);
    let pair = eg.apps("pair", vec![x, y]);
    let inner = eg.binder("lam", pair);
    let term = eg.binder("lam", inner);
    let pattern = pattern("(@lam x (@lam y {?a x y}))");
    let nodes = eg.node_count();
    let ids = eg.raw_id_count();

    let subst = eg.ematch(&pattern, &term).pop().unwrap();

    assert_eq!(eg.node_count(), nodes);
    assert_eq!(eg.raw_id_count(), ids);
    assert_eq!(subst.get("?a").unwrap().ctx(), 2);
    assert_eq!(subst.get("?a").unwrap().lift().bits(), "11");
}

#[test]
fn miller_permutation_preserves_the_implicit_top_context() {
    let output = run_script(
        r#"
            (insert 1 (@lam x (@lam y (triple $0 x y))))
            (rewrite
                (@lam x (@lam y {?a x y}))
                (@lam x (@lam y {?a y x})))
            (run 4)
            (guard 1
                (@lam x (@lam y (triple $0 x y)))
                (@lam x (@lam y (triple $0 y x))))
        "#,
    )
    .unwrap();
    assert_eq!(output.last().unwrap(), "; guard passed");
}

#[test]
fn miller_rhs_application_ignores_dropped_parameters() {
    let output = run_script(
        r#"
            (insert (@lam x (@lam y x)))
            (rewrite
                (@lam x (@lam y {?a x y}))
                (@lam x (@lam y {?a y x})))
            (run 4)
            (guard (@lam x (@lam y x)) (@lam x (@lam y y)))
        "#,
    )
    .unwrap();
    assert_eq!(output.last().unwrap(), "; guard passed");

    let mut eg = EGraph::new();
    let x = eg.var(2, 0);
    let inner = eg.binder("lam", x);
    let term = eg.binder("lam", inner);
    let pattern = pattern("(@lam x (@lam y {?a x y}))");
    let subst = eg.ematch(&pattern, &term).pop().unwrap();
    assert_eq!(subst.get("?a").unwrap().ctx(), 2);
    assert_eq!(subst.get("?a").unwrap().lift().bits(), "10");
}

#[test]
fn out_of_order_miller_pattern_is_rejected_statically() {
    let error = run_script(
        r#"
            (insert (@lam x (@lam y (pair (f x y) (f y x)))))
            (match (@lam x (@lam y (pair {?a x y} {?a y x}))))
        "#,
    )
    .unwrap_err();
    assert!(error.contains("write {?a x y}"));

    let rewrite_error = run_script("(rewrite (@lam x (@lam y (pair {?a x y} {?a y x}))) ok)").unwrap_err();
    assert!(rewrite_error.contains("write {?a x y}"));
}

#[test]
fn nonlinear_miller_occurrences_with_the_same_order_are_allowed() {
    let pattern = pattern("(@lam x (@lam y (@lam z (pair {?a x y} {?a y z}))))");
    pattern.validate_match_pattern().unwrap();
}

#[test]
fn nonlinear_miller_matching_moves_bindings_between_local_contexts() {
    let output = run_script(
        r#"
            (insert
                (@lam x (@lam y (@lam z
                    (pair (f x y) (f y z))))))
            (match
                (@lam x (@lam y (@lam z
                    (pair {?a x y} {?a y z})))))
        "#,
    )
    .unwrap();
    assert!(output[1].starts_with("; match 1 ctx0 |->"));
}

#[test]
fn nonlinear_miller_matching_rejects_different_bodies() {
    let output = run_script(
        r#"
            (insert
                (@lam x (@lam y (@lam z
                    (pair (f x y) (g y z))))))
            (match
                (@lam x (@lam y (@lam z
                    (pair {?a x y} {?a y z})))))
        "#,
    )
    .unwrap();
    assert_eq!(output[1], "; no matches");
}

#[test]
fn nonlinear_miller_occurrences_must_have_consistent_arity() {
    let pattern = pattern("(@lam x (@lam y (pair {?a x} {?a x y})))");
    assert!(pattern.validate_match_pattern().unwrap_err().contains("inconsistent arity"));
}

#[test]
fn match_inside_lambda() {
    let mut eg = EGraph::new();
    let bound = eg.var(1, 0);
    let zero = eg.atom("0", 1);
    let body = eg.apps("*", vec![bound, zero]);
    let lam = eg.binder("lam", body);
    let pat = Pattern::binder(
        "lam",
        Pattern::apps("*", vec![Pattern::miller("?body", vec![0]), Pattern::atom("0")]),
    );
    let matches = eg.ematch(&pat, &lam);
    assert_eq!(matches.len(), 1);
    assert!(eg.equivalent(&matches[0].get("?body").unwrap(), &bound));
}

#[test]
fn contextual_metavariable_crosses_an_unused_binder() {
    let mut eg = EGraph::new();
    let a = eg.atom("a", 0);
    let a_under_binder = eg.atom("a", 1);
    let lam_a = eg.binder("lam", a_under_binder);
    let term = eg.apps("pair", vec![a, lam_a]);
    let pattern = Pattern::apps(
        "pair",
        vec![Pattern::meta("?x"), Pattern::binder("lam", Pattern::meta("?x"))],
    );

    let matches = eg.ematch(&pattern, &term);
    assert_eq!(matches.len(), 1);
    assert!(eg.equivalent(&matches[0].get("?x").unwrap(), &a));
}

#[test]
fn contextual_metavariable_can_be_inserted_under_a_binder() {
    let mut eg = EGraph::new();
    let a = eg.atom("a", 0);
    let lhs = Pattern::meta("?x");
    let rhs = Pattern::binder("lam", Pattern::meta("?x"));
    let subst = eg.ematch(&lhs, &a).pop().unwrap();
    let result = eg.try_instantiate(&rhs, 0, &subst).unwrap();
    let expected_body = eg.atom("a", 1);
    let expected = eg.binder("lam", expected_body);

    assert!(eg.equivalent(&result, &expected));
}

#[test]
fn miller_permutation_memoizes_recursive_eclasses() {
    let mut eg = EGraph::new();
    let x = eg.var(2, 0);
    let y = eg.var(2, 1);
    let pair = eg.apps("pair", vec![x, y]);
    let recursive = eg.apps("f", vec![pair]);
    eg.union(&pair, &recursive);
    eg.rebuild();

    let inner = eg.binder("lam", pair);
    let term = eg.binder("lam", inner);
    let lhs = pattern("(@lam x (@lam y {?a x y}))");
    let rhs = pattern("(@lam x (@lam y {?a y x}))");
    let rule = Rewrite::new(lhs, rhs).unwrap();
    assert!(eg.run(&[rule], 1).unions > 0);

    let swapped = eg.apps("pair", vec![y, x]);
    let inner = eg.binder("lam", swapped);
    let expected = eg.binder("lam", inner);
    assert!(eg.equivalent(&term, &expected));
}

#[test]
fn a_miller_pattern_cannot_capture_an_inner_binder() {
    let output = run_script(
        r#"
            (insert (@lam x (@lam y x)))
            (insert (@lam x (@lam y y)))
            (match (@lam x (@lam y {?a x})))
        "#,
    )
    .unwrap();
    assert_eq!(output.len(), 3);
    assert_eq!(output[2], "; match 1 ctx0 |-> {?a = mlam x0 x0}");
}
