use lambda_microegg::{run_script, EGraph, Pattern, Rewrite, Term, TermCtx};

fn beta_rule() -> Rewrite {
    Rewrite::new(
        Pattern::apps(
            "app",
            vec![
                Pattern::binder("lam", Pattern::miller("?body", vec![0])),
                Pattern::meta("?arg"),
            ],
        ),
        Pattern::Subst(
            Box::new(Pattern::miller("?body", vec![0])),
            Box::new(Pattern::meta("?arg")),
        ),
    )
    .expect("beta rewrite is well formed")
}

#[test]
fn sexp_guard_accepts_an_established_equality() {
    let output = run_script("(union (f a) b) (guard (f a) b)").unwrap();
    assert_eq!(output, ["; unioned", "; guard passed"]);
}

#[test]
fn sexp_guard_supports_an_ambient_context() {
    let output = run_script("(union 1 (f $0) $0) (guard 1 (f $0) $0)").unwrap();
    assert_eq!(output.last().unwrap(), "; guard passed");
}

#[test]
fn sexp_match_extracts_the_best_equivalent_binding() {
    let output = run_script(
        r#"
            (insert (g (* a 0)))
            (rewrite (* ?x 0) 0)
            (run 4)
            (match (g ?x))
        "#,
    )
    .unwrap();
    assert_eq!(output.last().unwrap(), "; match 1 ctx0 |-> {?x = 0}");
}

#[test]
fn sexp_match_prints_each_total_context() {
    let output = run_script(
        r#"
            (insert (f a))
            (insert 1 (f $0))
            (match (f ?x))
        "#,
    )
    .unwrap();
    assert_eq!(
        &output[2..],
        ["; match 1 ctx0 |-> {?x = a}", "; match 2 ctx1 |-> {?x = $0}"]
    );
}

#[test]
fn sexp_match_miller_arguments_are_relative_to_pattern_lambdas() {
    let output = run_script(
        r#"
            (insert 1 (@lam x (pair $0 x)))
            (match (@lam x (pair ?top {?a x})))
        "#,
    )
    .unwrap();
    assert_eq!(output[1], "; match 1 ctx1 |-> {?top = $0, ?a = mlam x0 x0}");
}

#[test]
fn sexp_match_prints_miller_parameters_on_the_right() {
    let output = run_script(
        r#"
            (insert (@lam x (@lam y (pair x y))))
            (match (@lam x (@lam y {?a x y})))
        "#,
    )
    .unwrap();
    assert_eq!(output[1], "; match 1 ctx0 |-> {?a = mlam x0 x1 (pair x0 x1)}");
}

#[test]
fn a_bare_metavariable_can_leave_a_generic_binder() {
    let output = run_script(
        r#"
            (insert (@sum i c))
            (rewrite (@sum i ?c) (* ?c (@sum i 1)))
            (run 4)
            (guard (@sum i c) (* c (@sum i 1)))
        "#,
    )
    .unwrap();
    assert_eq!(output.last().unwrap(), "; guard passed");
}

#[test]
fn generic_binder_sugar_factors_only_independent_sum_terms() {
    let output = run_script(
        r#"
            (insert
              (@sum i (@sum j (@sum k (* (a i j) (a j k))))))
            (rewrite
              (@sum k (* {?f k} ?c))
              (* ?c (@sum k {?f k})))
            (rewrite
              (@sum k (* ?c {?f k}))
              (* ?c (@sum k {?f k})))
            (run 10)
            (guard
              (@sum i (@sum j (@sum k (* (a i j) (a j k)))))
              (@sum i (@sum j (* (a i j) (@sum k (a j k))))))
        "#,
    )
    .unwrap();
    assert_eq!(output.last().unwrap(), "; guard passed");

    let output = run_script(
        r#"
            (insert (@sum i (* (a i) (b i))))
            (match (@sum i (* ?c {?f i})))
        "#,
    )
    .unwrap();
    assert_eq!(output.last().unwrap(), "; no matches");
}

#[test]
fn beta_avoids_capture_when_the_argument_is_free() {
    let mut eg = EGraph::new();
    let outer_x = eg.var(3, 1);
    let inner_lambda = eg.binder("lam", outer_x);
    let function = eg.binder("lam", inner_lambda);
    let free_y = eg.var(1, 0);
    let redex = eg.apps("app", vec![function, free_y]);

    eg.saturate(&[beta_rule()]);
    assert_eq!(eg.extract(&redex).unwrap().to_string(), "(@lam $0)");
    let expected_free_y = eg.var(2, 0);
    let expected = eg.binder("lam", expected_free_y);
    assert!(eg.equivalent(&redex, &expected));
    let captured_y = eg.var(2, 1);
    let incorrect = eg.binder("lam", captured_y);
    assert!(!eg.equivalent(&redex, &incorrect));
}

#[test]
fn beta_does_not_shift_a_lambda_argument() {
    let mut eg = EGraph::new();
    let outer_x = eg.var(2, 0);
    let inner_lambda = eg.binder("lam", outer_x);
    let function = eg.binder("lam", inner_lambda);
    let z = eg.var(1, 0);
    let identity = eg.binder("lam", z);
    let redex = eg.apps("app", vec![function, identity]);

    eg.saturate(&[beta_rule()]);
    assert_eq!(eg.extract(&redex).unwrap().to_string(), "(@lam (@lam #0))");
    let expected_z = eg.var(2, 1);
    let expected_identity = eg.binder("lam", expected_z);
    let expected = eg.binder("lam", expected_identity);
    assert!(eg.equivalent(&redex, &expected));
}

#[test]
fn beta_discards_an_omega_argument_and_terminates() {
    let mut eg = EGraph::new();
    let a = eg.atom("a", 1);
    let constant_function = eg.binder("lam", a);
    let omega_var = eg.var(1, 0);
    let omega_body = eg.apps("app", vec![omega_var, omega_var]);
    let delta = eg.binder("lam", omega_body);
    let omega = eg.apps("app", vec![delta, delta]);
    let redex = eg.apps("app", vec![constant_function, omega]);

    eg.saturate(&[beta_rule()]);
    assert_eq!(
        eg.extract(&redex),
        Some(TermCtx {
            scope: 0,
            t: Term::Atom("a".into()),
        })
    );
}

#[test]
fn beta_handles_the_alpha_shared_self_recursive_class() {
    let mut eg = EGraph::new();
    let inner_y = eg.var(2, 1);
    let inner_identity = eg.binder("lam", inner_y);
    let outer_x = eg.var(1, 0);
    let body = eg.apps("app", vec![inner_identity, outer_x]);
    let term = eg.binder("lam", body);

    eg.saturate(&[beta_rule()]);
    assert_eq!(eg.extract(&term).unwrap().to_string(), "(@lam #0)");
    let expected_x = eg.var(1, 0);
    let expected = eg.binder("lam", expected_x);
    assert!(eg.equivalent(&term, &expected));
}

#[test]
fn beta_reduces_multiple_steps_after_self_application() {
    let mut eg = EGraph::new();
    let x = eg.var(1, 0);
    let xx = eg.apps("app", vec![x, x]);
    let duplicator = eg.binder("lam", xx);
    let y = eg.var(1, 0);
    let identity = eg.binder("lam", y);
    let term = eg.apps("app", vec![duplicator, identity]);

    eg.saturate(&[beta_rule()]);
    assert_eq!(eg.extract(&term).unwrap().to_string(), "(@lam #0)");
    assert!(eg.equivalent(&term, &identity));
}

fn egg_simple_rules() -> Vec<Rewrite> {
    let var = Pattern::meta;
    let app = |op, left, right| Pattern::apps(op, vec![left, right]);
    let rewrite = |lhs, rhs| Rewrite::new(lhs, rhs).unwrap();
    vec![
        rewrite(app("+", var("?a"), var("?b")), app("+", var("?b"), var("?a"))),
        rewrite(app("*", var("?a"), var("?b")), app("*", var("?b"), var("?a"))),
        rewrite(app("+", var("?a"), Pattern::atom("0")), var("?a")),
        rewrite(app("*", var("?a"), Pattern::atom("0")), Pattern::atom("0")),
        rewrite(app("*", var("?a"), Pattern::atom("1")), var("?a")),
    ]
}

#[test]
fn egg_simple_tests() {
    let rules = egg_simple_rules();

    let mut eg = EGraph::new();
    let zero = eg.atom("0", 0);
    let forty_two = eg.atom("42", 0);
    let term = eg.apps("*", vec![zero, forty_two]);
    eg.saturate(&rules);
    assert_eq!(
        eg.extract(&term),
        Some(TermCtx {
            scope: 0,
            t: Term::Atom("0".into()),
        })
    );

    let mut eg = EGraph::new();
    let zero = eg.atom("0", 0);
    let one = eg.atom("1", 0);
    let foo = eg.atom("foo", 0);
    let product = eg.apps("*", vec![one, foo]);
    let term = eg.apps("+", vec![zero, product]);
    eg.saturate(&rules);
    assert_eq!(
        eg.extract(&term),
        Some(TermCtx {
            scope: 0,
            t: Term::Atom("foo".into()),
        })
    );
}

#[test]
fn egg_lambda_under() {
    let mut eg = EGraph::new();
    let four = eg.atom("4", 1);
    let inner_y = eg.var(2, 1);
    let inner_identity = eg.binder("lam", inner_y);
    let inner_redex = eg.apps("app", vec![inner_identity, four]);
    let sum = eg.apps("+", vec![four, inner_redex]);
    let term = eg.binder("lam", sum);

    eg.saturate(&[beta_rule()]);
    let fold_four_plus_four = [Rewrite::new(
        Pattern::apps("+", vec![Pattern::atom("4"), Pattern::atom("4")]),
        Pattern::atom("8"),
    )
    .unwrap()];
    eg.saturate(&fold_four_plus_four);
    assert_eq!(eg.extract(&term).unwrap().to_string(), "(@lam 8)");
}

#[test]
fn egg_lambda_compose_beta_core() {
    let mut eg = EGraph::new();
    let f = eg.var(3, 0);
    let g = eg.var(3, 1);
    let x = eg.var(3, 2);
    let gx = eg.apps("app", vec![g, x]);
    let fgx = eg.apps("app", vec![f, gx]);
    let compose_x = eg.binder("lam", fgx);
    let compose_g = eg.binder("lam", compose_x);
    let compose = eg.binder("lam", compose_g);

    let y = eg.var(1, 0);
    let one = eg.atom("1", 1);
    let add_one_body = eg.apps("+", vec![y, one]);
    let add_one = eg.binder("lam", add_one_body);
    let partial = eg.apps("app", vec![compose, add_one]);
    let twice = eg.apps("app", vec![partial, add_one]);

    eg.saturate(&[beta_rule()]);
    assert_eq!(
        eg.extract(&twice).unwrap().to_string(),
        "(@lam (+ (+ #0 1) 1))"
    );
}

#[test]
fn identical_binders_in_sibling_lambdas_match_one_metavariable() {
    let mut eg = EGraph::new();
    let left_bound = eg.var(1, 0);
    let right_bound = eg.var(1, 0);
    let left = eg.binder("lam", left_bound);
    let right = eg.binder("lam", right_bound);
    let term = eg.apps("pair", vec![left, right]);
    let pattern = Pattern::apps(
        "pair",
        vec![
            Pattern::binder("lam", Pattern::miller("?body", vec![0])),
            Pattern::binder("lam", Pattern::miller("?body", vec![0])),
        ],
    );

    assert_eq!(eg.ematch(&pattern, &term).len(), 1);
}

#[test]
fn enumerate_alternative_enodes_in_one_class() {
    let mut eg = EGraph::new();
    let a = eg.atom("a", 0);
    let b = eg.atom("b", 0);
    let aa = eg.apps("f", vec![a, a]);
    let bb = eg.apps("f", vec![b, b]);
    eg.union(&aa, &bb);
    eg.rebuild();
    let repeated = Pattern::apps("f", vec![Pattern::meta("?v"), Pattern::meta("?v")]);
    let matches = eg.ematch(&repeated, &aa);
    assert_eq!(matches.len(), 2);
    assert!(matches.iter().any(|s| eg.equivalent(&s.get("?v").unwrap(), &a)));
    assert!(matches.iter().any(|s| eg.equivalent(&s.get("?v").unwrap(), &b)));
}

#[test]
fn equating_two_placements_of_one_raw_id_uses_the_equalizer() {
    let mut eg = EGraph::new();
    let x = eg.var(2, 0);
    let y = eg.var(2, 1);
    let fx = eg.apps("f", vec![x]);
    let fy = eg.apps("f", vec![y]);

    assert_eq!(fx.raw(), fy.raw());
    assert!(eg.union(&fx, &fy));
    eg.rebuild();
    assert!(eg.equivalent(&fx, &fy));
    assert_eq!(eg.find(&fx).lift().bits(), "00");
}

#[test]
fn rebuild_reports_a_count_neutral_canonical_change() {
    let mut eg = EGraph::new();
    let x = eg.var(1, 0);
    let zero = eg.atom("0", 1);
    let _fx = eg.apps("f", vec![x]);
    eg.union(&x, &zero);
    let classes_before = eg.class_count();

    assert!(eg.rebuild());
    assert_eq!(eg.class_count(), classes_before);
}

#[test]
fn concrete_context_variables_in_patterns_respect_binders() {
    let output = run_script(
        "(insert (@lam x (f x))) (rewrite (@lam x (f x)) (@lam x x)) (run 4) (extract (@lam x (f x)))",
    )
    .unwrap();
    assert_eq!(output.last().unwrap(), "(@lam x0 x0)");
}
