use lambda_microegg::lexer::{lex, Token};
use lambda_microegg::parser::SyntaxKind;
use lambda_microegg::term::{needs_quoting, write_atom};
use lambda_microegg::text::parse_usize;
use lambda_microegg::{parse_forms, syntax_match_pattern, syntax_pattern};

#[test]
fn atoms_that_need_quotes() {
    assert!(needs_quoting(""));
    assert!(needs_quoting("?x"));
    assert!(needs_quoting("$0"));
    assert!(needs_quoting("a b"));
    assert!(needs_quoting("f(x)"));
    assert!(needs_quoting("say \"hi\""));
    assert!(!needs_quoting("plain"));
    assert!(!needs_quoting("x@1"));
}

#[test]
fn atoms_are_written_with_escapes() {
    let mut out = String::new();
    write_atom(&mut out, "plain", false);
    assert_eq!(out, "plain");
    let mut out = String::new();
    write_atom(&mut out, "plain", true);
    assert_eq!(out, "\"plain\"");
    let mut out = String::new();
    write_atom(&mut out, "a\"b\\c\nd\te", false);
    assert_eq!(out, "\"a\\\"b\\\\c\\nd\\te\"");
}

#[test]
fn numbers_parse_as_std_does() {
    let chars = |s: &str| s.chars().collect::<Vec<_>>();
    assert_eq!(parse_usize(&chars("42")), Some(42));
    assert_eq!(parse_usize(&chars("+7")), Some(7));
    assert_eq!(parse_usize(&chars("")), None);
    assert_eq!(parse_usize(&chars("+")), None);
    assert_eq!(parse_usize(&chars("-1")), None);
    assert_eq!(parse_usize(&chars("1x")), None);
    assert_eq!(parse_usize(&chars("99999999999999999999999999")), None);
}

#[test]
fn lexer_reports_locations_and_escapes() {
    let tokens = lex("(a \"b c\"\n ; note\n [d])").unwrap();
    assert_eq!(tokens.len(), 7);
    match &tokens[2] {
        Token::Atom(text, quoted, location) => {
            assert_eq!(text, "b c");
            assert!(*quoted);
            assert_eq!((location.line, location.column), (1, 4));
        }
        other => panic!("unexpected token {other:?}"),
    }
    match &tokens[4] {
        Token::Atom(text, quoted, location) => {
            assert_eq!(text, "d");
            assert!(!*quoted);
            assert_eq!((location.line, location.column), (3, 3));
        }
        other => panic!("unexpected token {other:?}"),
    }
    assert_eq!(lex("\"a\\q\"").unwrap_err(), "line 1:3: unsupported escape \\q");
    assert_eq!(lex("\"abc").unwrap_err(), "line 1:1: unterminated quoted atom");
    assert_eq!(lex("\"abc\\").unwrap_err(), "line 1:5: unterminated escape");
}

#[test]
fn parser_builds_nested_groups() {
    let forms = parse_forms("(f [g x] {?m y}) z").unwrap();
    assert_eq!(forms.len(), 2);
    match &forms[0].kind {
        SyntaxKind::Group { items, .. } => assert_eq!(items.len(), 3),
        _ => panic!("expected a group"),
    }
    assert_eq!((forms[1].location.line, forms[1].location.column), (1, 18));
    assert_eq!(parse_forms("(f").unwrap_err(), "line 1:1: unclosed '('");
    assert_eq!(parse_forms("]").unwrap_err(), "line 1:1: unexpected ']'");
    assert_eq!(parse_forms("  ; only a comment").unwrap().len(), 0);
}

#[test]
fn patterns_read_from_forms() {
    let forms = parse_forms("(@lam x {?a x}) (f ?x ?x) (#subst (f x) x ?y) (g $z)").unwrap();
    assert!(syntax_match_pattern(&forms[0]).is_ok());
    assert!(syntax_match_pattern(&forms[1]).is_ok());
    assert!(syntax_pattern(&forms[2]).is_ok());
    assert_eq!(
        syntax_match_pattern(&forms[3]).unwrap_err(),
        "line 1:50: invalid outer-context variable '$z'"
    );
}

#[test]
fn metavariables_cannot_head_an_application() {
    let forms = parse_forms("(?f a)").unwrap();
    assert_eq!(
        syntax_pattern(&forms[0]).unwrap_err(),
        "line 1:2: metavariable '?f' is not allowed in application head position; use {?f ...} for a Miller metavariable occurrence or [?f ...] for a curried application pattern"
    );
}
