use lambda_microegg::{EGraph, Head, Id, Pattern, Rewrite};

#[derive(Clone, Debug)]
enum ReferenceTerm {
    Var(usize),
    Atom(&'static str),
    App(&'static str, Vec<ReferenceTerm>),
    Lam(Box<ReferenceTerm>),
}

fn next_random(state: &mut u64) -> u64 {
    *state = state
        .wrapping_mul(6_364_136_223_846_793_005)
        .wrapping_add(1_442_695_040_888_963_407);
    *state
}

fn generated_term(ctx: usize, depth: usize, state: &mut u64) -> ReferenceTerm {
    let choice = next_random(state) as usize;
    if depth == 0 {
        return if ctx > 0 && choice % 2 == 0 {
            ReferenceTerm::Var(choice % ctx)
        } else {
            ReferenceTerm::Atom(["a", "b", "0"][choice % 3])
        };
    }
    match choice % 5 {
        0 if ctx > 0 => ReferenceTerm::Var(choice % ctx),
        1 => ReferenceTerm::Atom(["a", "b", "0"][choice % 3]),
        2 => ReferenceTerm::Lam(Box::new(generated_term(ctx + 1, depth - 1, state))),
        3 => ReferenceTerm::App("f", vec![generated_term(ctx, depth - 1, state)]),
        _ => ReferenceTerm::App(
            "pair",
            vec![
                generated_term(ctx, depth - 1, state),
                generated_term(ctx, depth - 1, state),
            ],
        ),
    }
}

fn add_reference(eg: &mut EGraph, term: &ReferenceTerm, ctx: usize) -> Id {
    match term {
        ReferenceTerm::Var(level) => eg.var(ctx, *level),
        ReferenceTerm::Atom(name) => eg.atom(name, ctx),
        ReferenceTerm::App(op, children) => {
            let children = children
                .iter()
                .map(|child| add_reference(eg, child, ctx))
                .collect();
            eg.apps(op, children)
        }
        ReferenceTerm::Lam(body) => {
            let body = add_reference(eg, body, ctx + 1);
            eg.binder("lam", body)
        }
    }
}

fn embed_reference(term: &ReferenceTerm, root_ctx: usize, extra: usize) -> ReferenceTerm {
    match term {
        ReferenceTerm::Var(level) => ReferenceTerm::Var(level + usize::from(*level >= root_ctx) * extra),
        ReferenceTerm::Atom(name) => ReferenceTerm::Atom(name),
        ReferenceTerm::App(op, children) => ReferenceTerm::App(
            op,
            children
                .iter()
                .map(|child| embed_reference(child, root_ctx, extra))
                .collect(),
        ),
        ReferenceTerm::Lam(body) => ReferenceTerm::Lam(Box::new(embed_reference(body, root_ctx, extra))),
    }
}

fn substitute_reference(
    term: &ReferenceTerm,
    variable: usize,
    replacement: &ReferenceTerm,
    replacement_ctx: usize,
    local_depth: usize,
) -> ReferenceTerm {
    match term {
        ReferenceTerm::Var(level) if *level == variable => embed_reference(replacement, replacement_ctx, local_depth),
        ReferenceTerm::Var(level) => ReferenceTerm::Var(level - usize::from(*level > variable)),
        ReferenceTerm::Atom(name) => ReferenceTerm::Atom(name),
        ReferenceTerm::App(op, children) => ReferenceTerm::App(
            op,
            children
                .iter()
                .map(|child| substitute_reference(child, variable, replacement, replacement_ctx, local_depth))
                .collect(),
        ),
        ReferenceTerm::Lam(body) => ReferenceTerm::Lam(Box::new(substitute_reference(
            body,
            variable,
            replacement,
            replacement_ctx,
            local_depth + 1,
        ))),
    }
}

#[test]
fn generated_substitution_agrees_with_reference_semantics() {
    for seed in 0..500_u64 {
        let target_ctx = 1 + seed as usize % 3;
        let variable = (seed as usize / 3) % target_ctx;
        let mut target_state = seed.wrapping_mul(2).wrapping_add(1);
        let mut replacement_state = seed.wrapping_mul(2).wrapping_add(2);
        let target = generated_term(target_ctx, 3, &mut target_state);
        let replacement = generated_term(target_ctx - 1, 2, &mut replacement_state);
        let expected = substitute_reference(&target, variable, &replacement, target_ctx - 1, 0);

        let mut eg = EGraph::new();
        let target_id = add_reference(&mut eg, &target, target_ctx);
        let replacement_id = add_reference(&mut eg, &replacement, target_ctx - 1);
        let expected_id = add_reference(&mut eg, &expected, target_ctx - 1);
        let actual_id = eg.substitute(&target_id, variable, &replacement_id).unwrap();

        assert!(
            eg.equivalent(&actual_id, &expected_id),
            "substitution disagreed for seed {seed}, variable {variable}:\n\
             target: {target:?}\nreplacement: {replacement:?}\nexpected: {expected:?}"
        );
    }
}

#[test]
fn generated_miller_matches_reinstantiate_the_target() {
    for seed in 0..300_u64 {
        let top_ctx = seed as usize % 3;
        let mut state = seed.wrapping_add(10_000);
        let body = generated_term(top_ctx + 2, 3, &mut state);
        let mut eg = EGraph::new();
        let body = add_reference(&mut eg, &body, top_ctx + 2);
        let inner = eg.binder("lam", body);
        let target = eg.binder("lam", inner);
        let pattern = Pattern::binder("lam", Pattern::binder("lam", Pattern::miller("?body", vec![1, 0])));

        let matches = eg.ematch(&pattern, &target);
        assert!(!matches.is_empty(), "constructed match failed for seed {seed}");
        for subst in matches {
            let instantiated = eg
                .try_instantiate(&pattern, top_ctx, &subst)
                .expect("a match substitution must instantiate its own pattern");
            assert!(
                eg.equivalent(&instantiated, &target),
                "match did not reinstantiate its target for seed {seed}"
            );
        }

        let mut state = seed.wrapping_add(20_000);
        let body = generated_term(top_ctx + 1, 2, &mut state);
        let body = add_reference(&mut eg, &body, top_ctx + 1);
        let pair = eg.apps("pair", vec![body, body]);
        let target = eg.binder("lam", pair);
        let pattern = Pattern::binder(
            "lam",
            Pattern::apps("pair", vec![Pattern::miller("?item", vec![0]), Pattern::miller("?item", vec![0])]),
        );
        let matches = eg.ematch(&pattern, &target);
        assert!(!matches.is_empty(), "constructed nonlinear match failed for seed {seed}");
        for subst in matches {
            let instantiated = eg
                .try_instantiate(&pattern, top_ctx, &subst)
                .expect("a nonlinear match must instantiate its own pattern");
            assert!(
                eg.equivalent(&instantiated, &target),
                "nonlinear match did not reinstantiate its target for seed {seed}"
            );
        }
    }
}

#[test]
fn substitute_under_a_binder_without_capture() {
    let mut eg = EGraph::new();
    let outer = eg.var(2, 0);
    let inner = eg.var(2, 1);
    let body = eg.apps("pair", vec![outer, inner]);
    let term = eg.binder("lam", body);
    let replacement = eg.atom("a", 0);

    let result = eg.substitute(&term, 0, &replacement).unwrap();
    let a_under_binder = eg.atom("a", 1);
    let remaining_bound = eg.var(1, 0);
    let expected_body = eg.apps("pair", vec![a_under_binder, remaining_bound]);
    let expected = eg.binder("lam", expected_body);
    assert!(eg.equivalent(&result, &expected));
}

#[test]
fn substitution_prunes_the_var_times_zero_cycle() {
    let mut eg = EGraph::new();
    let x = eg.var(1, 0);
    let zero = eg.atom("0", 1);
    let x_times_zero = eg.apps("*", vec![x, zero]);
    eg.union(&x_times_zero, &zero);
    eg.rebuild();
    let body = eg.apps("pair", vec![x, x_times_zero]);
    let replacement = eg.atom("a", 0);

    let result = eg.substitute(&body, 0, &replacement).unwrap();
    let zero_closed = eg.atom("0", 0);
    let expected = eg.apps("pair", vec![replacement, zero_closed]);
    assert!(eg.equivalent(&result, &expected));
}

#[test]
fn substitution_memoizes_a_genuinely_recursive_eclass() {
    let mut eg = EGraph::new();
    let x = eg.var(1, 0);
    let fx = eg.apps("f", vec![x]);
    eg.union(&x, &fx);
    eg.rebuild();
    let a = eg.atom("a", 0);

    let result = eg.substitute(&x, 0, &a).unwrap();
    let fa = eg.apps("f", vec![a]);
    assert!(eg.equivalent(&result, &a));
    assert!(eg.equivalent(&result, &fa));
}

#[test]
fn substitution_detects_a_cycle_lifted_through_a_binder() {
    let mut eg = EGraph::new();
    let x = eg.var(1, 0);
    let x_under_binder = x.in_context(2).unwrap();
    let lambda_x = eg.binder("lam", x_under_binder);
    eg.union(&x, &lambda_x);
    eg.rebuild();
    let a = eg.atom("a", 0);

    let result = eg.substitute(&x, 0, &a).unwrap();
    let a_under_binder = eg.atom("a", 1);
    let lambda_a = eg.binder("lam", a_under_binder);
    assert!(eg.equivalent(&result, &a));
    assert!(eg.equivalent(&result, &lambda_a));
}

#[test]
fn extract_prefers_zero_from_the_var_times_zero_class() {
    let mut eg = EGraph::new();
    let x = eg.var(1, 0);
    let zero = eg.atom("0", 1);
    let x_times_zero = eg.apps("*", vec![x, zero]);
    eg.union(&x_times_zero, &zero);

    let extracted = eg.extract(&x_times_zero).unwrap();
    assert_eq!(extracted.scope, 1);
    assert_eq!(extracted.to_string(), "0");
}

#[test]
fn extract_skips_a_recursive_enode() {
    let mut eg = EGraph::new();
    let a = eg.atom("a", 0);
    let fa = eg.apps("f", vec![a]);
    eg.union(&a, &fa);

    let extracted = eg.extract(&a).unwrap();
    assert_eq!(extracted.scope, 0);
    assert_eq!(extracted.to_string(), "a");
}

#[test]
fn extract_reconstructs_variable_placements_under_binders() {
    let mut eg = EGraph::new();
    let outer = eg.var(2, 0);
    let inner = eg.var(2, 1);
    let pair = eg.apps("pair", vec![outer, inner]);
    let term = eg.binder("lam", pair);

    let extracted = eg.extract(&term).unwrap();
    assert_eq!(extracted.scope, 1);
    assert_eq!(extracted.to_string(), "(@lam (pair $0 #0))");
}

#[test]
fn extract_accepts_a_custom_monotone_cost() {
    let mut eg = EGraph::new();
    let expensive = eg.atom("expensive", 0);
    let cheap = eg.atom("cheap", 0);
    let wrapped = eg.apps("wrap", vec![cheap]);
    eg.union(&expensive, &wrapped);

    let weight = |head: Head| -> u64 {
        match head {
            Head::Atom(name) if name.as_str() == "expensive" => 100,
            _ => 1,
        }
    };
    assert_eq!(eg.extract_with(&expensive, weight).unwrap().to_string(), "(wrap cheap)");
}

#[test]
fn match_two_variables_and_repeated_variable() {
    let mut eg = EGraph::new();
    let x = eg.var(2, 0);
    let y = eg.var(2, 1);
    let xy = eg.apps("*", vec![x, y]);
    let two = Pattern::apps("*", vec![Pattern::meta("?a"), Pattern::meta("?b")]);
    let matches = eg.ematch(&two, &xy);
    assert_eq!(matches.len(), 1);
    assert!(eg.equivalent(&matches[0].get("?a").unwrap(), &x));
    assert!(eg.equivalent(&matches[0].get("?b").unwrap(), &y));
    let repeated = Pattern::apps("*", vec![Pattern::meta("?a"), Pattern::meta("?a")]);
    assert!(eg.ematch(&repeated, &xy).is_empty());
    let swapped = Pattern::apps("*", vec![Pattern::meta("?b"), Pattern::meta("?a")]);
    let rule = Rewrite::new(two, swapped).unwrap();
    assert!(eg.run(&[rule], 1).unions > 0);
    let yx = eg.apps("*", vec![y, x]);
    assert!(eg.equivalent(&xy, &yx));
}

#[test]
fn redundant_binding_matches_through_an_equivalent_constant() {
    let mut eg = EGraph::new();
    let x = eg.var(1, 0);
    let zero = eg.atom("0", 1);
    let sub_xx = eg.apps("sub", vec![x, x]);
    eg.union(&zero, &sub_xx);
    eg.rebuild();
    let term = eg.apps("f", vec![x, zero]);
    let pattern = Pattern::apps(
        "f",
        vec![
            Pattern::meta("?x"),
            Pattern::apps("sub", vec![Pattern::meta("?x"), Pattern::meta("?x")]),
        ],
    );

    let matches = eg.ematch_lifted(&pattern, &term);
    assert!(!matches.is_empty());
    assert!(matches.iter().all(|s| eg.equivalent(&s.get("?x").unwrap(), &x)));
}
