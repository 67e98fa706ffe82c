use lambda_microegg::script::{comment_lines, in_context};
use lambda_microegg::{run_script, terminal_error};

#[test]
fn sexp_frontend_runs_insert_rewrite_run_extract() {
    let output = run_script(
        r#"
            ; Commands may be separated by arbitrary whitespace.
            (insert (+ a 0))
            (rewrite (+ ?x 0) ?x)
            (run 10)
            (extract (+ a 0))
        "#,
    )
    .unwrap();
    assert_eq!(output[0], "; inserted e4");
    assert_eq!(output[1], "; rewrite 1 added");
    assert!(output[2].starts_with("; ran 1 rounds,"));
    assert_eq!(output.last().unwrap(), "a");
}

#[test]
fn sexp_frontend_rewrites_under_a_binder() {
    let output = run_script(
        r#"
            (insert (@lam x (f a)))
            (rewrite (f ?x) ?x)
            (run 10)
            (extract (@lam x (f a)))
        "#,
    )
    .unwrap();
    assert_eq!(output.last().unwrap(), "(@lam x0 a)");
}

#[test]
fn sexp_frontend_parses_context_variables_and_reports_scope_errors() {
    let output = run_script("(insert (@lam x x)) (extract (@lam x x))").unwrap();
    assert_eq!(output.last().unwrap(), "(@lam x0 x0)");
    assert!(run_script("(insert $0)").unwrap_err().contains("out of scope"));
}

#[test]
fn named_binders_support_shadowing_and_namespaced_indices() {
    let output = run_script(
        r#"
            (insert (@lam x (@lam x x)))
            (extract (@lam x (@lam x x)))
            (insert (@lam x (@lam x x@1)))
            (extract (@lam x (@lam x x@1)))
        "#,
    )
    .unwrap();
    assert_eq!(output[1], "(@lam x0 (@lam x1 x1))");
    assert_eq!(output[3], "(@lam x0 (@lam x1 x0))");
}

#[test]
fn dollar_variables_always_refer_to_the_outer_context() {
    let output =
        run_script("(insert 1 (@lam x (pair $0 x))) (extract 1 (@lam x (pair $0 x)))").unwrap();
    assert_eq!(output.last().unwrap(), "(@lam x0 (pair $0 x0))");
}

#[test]
fn named_output_quotes_atoms_that_would_be_captured() {
    let output = run_script("(insert (@lam x x0)) (extract (@lam x x0))").unwrap();
    assert_eq!(output.last().unwrap(), "(@lam x0 \"x0\")");
}

#[test]
fn lambda_names_are_alpha_irrelevant() {
    let output = run_script("(guard (@lam x x) (@lam y y))").unwrap();
    assert_eq!(output, ["; guard passed"]);
}

#[test]
fn bare_lam_is_an_ordinary_symbol() {
    let error = run_script("(guard (lam x x) (lam y y))").unwrap_err();
    assert_eq!(error, "line 1:1: guard failed: (lam x x) != (lam y y)");
}

#[test]
fn zero_run_limit_runs_nothing() {
    let output = run_script("(insert (f a)) (rewrite (f ?x) ?x) (run 0) (extract (f a))").unwrap();
    assert!(output[2].starts_with("; ran 0 rounds, 0 unions: 3 classes, 3 e-nodes\n"));
    assert!(output[2].contains("\n; match "));
    assert_eq!(output.last().unwrap(), "(f a)");
}

#[test]
fn sexp_reset_clears_terms_and_rewrite_rules() {
    let output = run_script(
        r#"
            (insert old)
            (rewrite (f ?x) ?x)
            (reset)
            (match ?x)
            (insert (f a))
            (run 4)
            (extract (f a))
        "#,
    )
    .unwrap();
    assert_eq!(output[2], "; reset");
    assert_eq!(output[3], "; no matches");
    assert_eq!(output.last().unwrap(), "(f a)");
}

#[test]
fn sexp_reset_rejects_arguments() {
    assert_eq!(
        run_script("(reset now)").unwrap_err(),
        "line 1:1: wrong number of arguments to 'reset'"
    );
}

#[test]
fn sexp_union_equates_two_terms() {
    let output = run_script("(union (f a) b) (extract (f a))").unwrap();
    assert_eq!(output, ["; unioned", "b"]);
}

#[test]
fn sexp_union_supports_an_ambient_context() {
    let output = run_script("(union 1 (f $0) $0) (extract 1 (f $0))").unwrap();
    assert_eq!(output, ["; unioned", "$0"]);
}

#[test]
fn sexp_union_reports_existing_equality() {
    let output = run_script("(union a a)").unwrap();
    assert_eq!(output, ["; already equivalent"]);
}

#[test]
fn sexp_subst_builtin_is_available_in_insert_and_outer_contexts() {
    let output = run_script(
        r#"
            (insert 0 (#subst $0 $0 fred))
            (guard (#subst $0 $0 fred) fred)
            (insert 1 (#subst (pair $0 x) x a))
            (extract 1 (pair $0 a))
        "#,
    )
    .unwrap();
    assert_eq!(output[1], "; guard passed");
    assert_eq!(output.last().unwrap(), "(pair $0 a)");
}

#[test]
fn sexp_subst_builtin_is_available_in_union() {
    let output = run_script("(union (#subst (f x) x a) b) (guard (f a) b)").unwrap();
    assert_eq!(output, ["; unioned", "; guard passed"]);
}

#[test]
fn sexp_guard_checks_equality_after_saturation() {
    let output =
        run_script("(insert (* a 0)) (rewrite (* ?x 0) 0) (run 4) (guard (* a 0) 0)").unwrap();
    assert_eq!(output.last().unwrap(), "; guard passed");
}

#[test]
fn sexp_guard_fails_the_script_for_unequal_terms() {
    let error = run_script("(guard (f a) b)").unwrap_err();
    assert_eq!(error, "line 1:1: guard failed: (f a) != b");
}

#[test]
fn sexp_fail_accepts_a_failing_command() {
    let output = run_script("(fail (guard (f a) b))\n(echo continued)").unwrap();
    assert_eq!(
        output,
        ["; failed as expected: guard failed: (f a) != b", "; continued"]
    );
}

#[test]
fn sexp_fail_rejects_a_successful_command() {
    let error = run_script("\n(fail (guard a a))").unwrap_err();
    assert_eq!(error, "line 2:1: wrapped command succeeded");
}

#[test]
fn sexp_fail_discards_the_wrapped_commands_state() {
    let output = run_script("(fail (guard (f a) b)) (match ?x)").unwrap();
    assert_eq!(
        output,
        ["; failed as expected: guard failed: (f a) != b", "; no matches"]
    );
}

#[test]
fn sexp_fail_checks_its_arity() {
    assert_eq!(
        run_script("(fail)").unwrap_err(),
        "line 1:1: wrong number of arguments to 'fail'"
    );
}

#[test]
fn sexp_errors_report_source_lines() {
    let error = run_script("(echo ok)\n\n(guard a b)").unwrap_err();
    assert_eq!(error, "line 3:1: guard failed: a != b");

    let error = run_script("(echo ok)\n(insert (f a)").unwrap_err();
    assert_eq!(error, "line 2:1: unclosed '('");

    let error = run_script("(echo ok)\n)").unwrap_err();
    assert_eq!(error, "line 2:1: unexpected ')'");

    let error = run_script("(f a]").unwrap_err();
    assert_eq!(error, "line 1:5: expected ')', found ']'");
}

#[test]
fn commands_must_be_non_empty_lists_of_known_names() {
    assert_eq!(run_script("foo").unwrap_err(), "line 1:1: command 1 must be a list");
    assert_eq!(run_script("(echo a) ()").unwrap_err(), "line 1:10: command 2 is empty");
    assert_eq!(
        run_script("(frobnicate)").unwrap_err(),
        "line 1:1: unknown command 'frobnicate'"
    );
}

#[test]
fn sexp_match_prints_every_extracted_substitution() {
    let output = run_script(
        r#"
            (insert (f a))
            (insert (f b))
            (match (f ?x))
        "#,
    )
    .unwrap();
    assert_eq!(
        &output[2..],
        ["; match 1 ctx0 |-> {?x = a}", "; match 2 ctx0 |-> {?x = b}"]
    );
}

#[test]
fn sexp_match_prints_miller_substitutions() {
    let output = run_script(
        r#"
            (insert (@lam x x))
            (match (@lam x ?a))
            (match (@lam x {?a x}))
        "#,
    )
    .unwrap();
    assert_eq!(output[1], "; no matches");
    assert_eq!(output[2], "; match 1 ctx0 |-> {?a = mlam x0 x0}");
}

#[test]
fn sexp_match_rejects_permuted_miller_parameters() {
    let error = run_script(
        "(insert (@lam x (@lam y (pair x y))))\n(match (@lam x (@lam y {?a y x})))",
    )
    .unwrap_err();
    assert_eq!(
        error,
        "line 2:24: Miller metavariable '?a' arguments are out of order; write {?a x y} on the match left-hand side, then permute its arguments on the rewrite right-hand side if needed"
    );
}

#[test]
fn beta_reduction_as_a_rewrite() {
    let output = run_script(
        r#"
            (insert [(@lam x (f x)) a])
            (rewrite [(@lam x {?body x}) ?e] {?body ?e})
            (run 5)
            (guard [(@lam x (f x)) a] (f a))
        "#,
    )
    .unwrap();
    assert_eq!(output.last().unwrap(), "; guard passed");
}

#[test]
fn birewrite_adds_both_directions() {
    let output = run_script("(birewrite (f ?x) (g ?x)) (insert (f a)) (run 3) (guard (f a) (g a))").unwrap();
    assert_eq!(output[0], "; birewrite 1 and 2 added");
    assert_eq!(output.last().unwrap(), "; guard passed");
}

#[test]
fn sexp_print_egraph_handles_an_empty_graph_and_rejects_arguments() {
    assert_eq!(
        run_script("(print-egraph)").unwrap(),
        ["; egraph: 0 classes, 0 e-nodes"]
    );
    assert_eq!(
        run_script("(print-egraph extra)").unwrap_err(),
        "line 1:1: wrong number of arguments to 'print-egraph'"
    );
}

#[test]
fn print_egraph_lists_classes() {
    let output = run_script("(insert 1 (@lam x (pair $0 x))) (print-egraph)").unwrap();
    assert!(output[1].starts_with("; egraph: 5 classes, 5 e-nodes\n"));
}

#[test]
fn sexp_echo_emits_quoted_strings_and_atoms() {
    assert_eq!(
        run_script(r#"(echo "hello world") (echo done)"#).unwrap(),
        ["; hello world", "; done"]
    );
    assert_eq!(
        run_script("(echo)").unwrap_err(),
        "line 1:1: wrong number of arguments to 'echo'"
    );
    assert_eq!(
        run_script("(echo (not an atom))").unwrap_err(),
        "line 1:7: expected an atom"
    );
}

#[test]
fn echo_comments_every_line() {
    assert_eq!(run_script("(echo \"a\\nb\")").unwrap(), ["; a\n; b"]);
}

#[test]
fn overly_deep_frontend_context_is_an_error() {
    assert!(run_script("(insert 8 a)").unwrap_err().contains("at most 7"));
    assert_eq!(
        run_script("(insert 8 a)").unwrap_err(),
        "line 1:9: thinnings support at most 7 context variables"
    );
    assert!(run_script("(insert 7 a)").is_ok());
    assert_eq!(
        run_script("(insert x a)").unwrap_err(),
        "line 1:9: insert context must be a nonnegative integer"
    );
}

#[test]
fn terms_reject_pattern_syntax() {
    assert_eq!(
        run_script("(insert ?x)").unwrap_err(),
        "line 1:9: pattern variable '?x' used in a term"
    );
    assert_eq!(
        run_script("(insert {?x})").unwrap_err(),
        "line 1:9: metavariable occurrence used in a term"
    );
    assert_eq!(
        run_script("(insert (@lam ?x x))").unwrap_err(),
        "line 1:15: invalid binder name '?x'"
    );
}

#[test]
fn run_limit_must_be_a_number() {
    assert_eq!(
        run_script("(run many)").unwrap_err(),
        "line 1:6: run limit must be a nonnegative integer"
    );
}

#[test]
fn terminal_errors_use_clickable_locations() {
    assert_eq!(
        terminal_error("demo.sexp", "line 12:7: guard failed: a != b"),
        "demo.sexp:12:7: error: guard failed: a != b"
    );
}

#[test]
fn terminal_errors_without_locations_remain_errors() {
    assert_eq!(terminal_error("demo.sexp", "unexpected"), "error: unexpected");
    assert_eq!(terminal_error("demo.sexp", "line x:7: oops"), "error: line x:7: oops");
}

#[test]
fn comments_and_contexts() {
    assert_eq!(comment_lines("a\nb"), "; a\n; b");
    assert_eq!(comment_lines(""), "; ");
    assert_eq!(in_context(0, "x"), "x");
    assert_eq!(in_context(2, "x"), "ctx2 |-> x");
}
