use json_generator::{
    classify_line, compile, declare, is_object, is_variable, resolve, Diagnostic, DiagnosticKind, JsonGenerator, Line,
    RawValue,
};

fn diag(kind: DiagnosticKind, subject: &str) -> Diagnostic {
    Diagnostic { kind, subject: subject.to_string() }
}

fn resolve_in(text: &str, key: &str) -> (Option<String>, Vec<Diagnostic>) {
    let (decls, halt) = declare(text);
    assert!(halt.is_none());
    let mut diags = Vec::new();
    let r = resolve(&decls.variables, &key.to_string(), &mut diags);
    (r, diags)
}

#[test]
fn end_to_end_two_members() {
    let c = compile("a = 1\nb = 2\nobj -> { a, b }");
    assert_eq!(c.document, "{\"obj\": {\"a\": 1, \"b\": 2}}");
    assert!(c.diagnostics.is_empty());
    assert!(!c.halted);
}

#[test]
fn no_objects_gives_empty_document() {
    let c = compile("");
    assert_eq!(c.document, "{}");
    assert!(c.diagnostics.is_empty());
    let c = compile("a = 1\n\n# only a comment\n");
    assert_eq!(c.document, "{}");
    assert_eq!(c.diagnostics, vec![diag(DiagnosticKind::UnusedVariable, "a")]);
}

#[test]
fn array_of_literals_keeps_order() {
    let (r, diags) = resolve_in("a = [1, 2, 3]", "a");
    assert_eq!(r, Some("[1, 2, 3]".to_string()));
    assert!(diags.is_empty());
}

#[test]
fn array_substitutes_nested_variable() {
    let (r, diags) = resolve_in("a = [b]\nb = 5", "a");
    assert_eq!(r, Some("[5]".to_string()));
    assert!(diags.is_empty());
}

#[test]
fn self_reference_falls_back_to_token() {
    let (r, diags) = resolve_in("x = [x]", "x");
    assert_eq!(r, Some("[x]".to_string()));
    assert_eq!(diags, vec![diag(DiagnosticKind::CircularReference, "x")]);
    let c = compile("x = [x]");
    assert_eq!(
        c.diagnostics,
        vec![diag(DiagnosticKind::CircularReference, "x"), diag(DiagnosticKind::UnusedVariable, "x")]
    );
    assert!(!c.halted);
}

#[test]
fn mutual_reference_is_cut_at_the_cycle() {
    let (r, diags) = resolve_in("a = [b]\nb = [a]", "a");
    assert_eq!(r, Some("[[a]]".to_string()));
    assert_eq!(diags, vec![diag(DiagnosticKind::CircularReference, "a")]);
}

#[test]
fn undeclared_member_is_left_out() {
    let c = compile("obj -> { missing }");
    assert_eq!(c.document, "{\"obj\": {}}");
    assert_eq!(c.diagnostics, vec![diag(DiagnosticKind::UndefinedVariable, "missing")]);
}

#[test]
fn unreferenced_variable_is_reported_once() {
    let c = compile("a = 1\nb = 2\nobj -> { a }");
    assert_eq!(c.document, "{\"obj\": {\"a\": 1}}");
    assert_eq!(c.diagnostics, vec![diag(DiagnosticKind::UnusedVariable, "b")]);
}

#[test]
fn resolving_twice_gives_the_same_fragment() {
    let text = "a = [b, c]\nb = { c }\nc = 7";
    let (decls, _) = declare(text);
    let key = "a".to_string();
    let mut d1 = Vec::new();
    let mut d2 = Vec::new();
    let r1 = resolve(&decls.variables, &key, &mut d1);
    let r2 = resolve(&decls.variables, &key, &mut d2);
    assert_eq!(r1, Some("[{ \"c\": 7 }, 7]".to_string()));
    assert_eq!(r1, r2);
    assert_eq!(d1, d2);
}

#[test]
fn undeclared_key_resolves_to_none() {
    let (r, diags) = resolve_in("a = 1", "b");
    assert_eq!(r, None);
    assert!(diags.is_empty());
}

#[test]
fn unclassifiable_line_halts_but_keeps_what_came_before() {
    let c = compile("a = 1\nthis is bad\nb = 2\nobj -> { a, b }");
    assert!(c.halted);
    assert_eq!(c.document, "{}");
    assert_eq!(
        c.diagnostics,
        vec![diag(DiagnosticKind::UnclassifiableLine, "this is bad"), diag(DiagnosticKind::UnusedVariable, "a")]
    );
    let c = compile("a = 1\nobj -> { a }\n???");
    assert!(c.halted);
    assert_eq!(c.document, "{\"obj\": {\"a\": 1}}");
    assert_eq!(c.diagnostics, vec![diag(DiagnosticKind::UnclassifiableLine, "???")]);
}

#[test]
fn comments_and_blank_lines_are_skipped() {
    let c = compile("# heading\n\n  a = 1 // the first\nobj -> { a } // done\n");
    assert_eq!(c.document, "{\"obj\": {\"a\": 1}}");
    assert!(c.diagnostics.is_empty());
}

#[test]
fn member_literal_resolves_members() {
    let c = compile("p = { a, b }\na = 1\nobj -> { p }");
    assert_eq!(c.document, "{\"obj\": {\"p\": { \"a\": 1 }}}");
    assert_eq!(c.diagnostics, vec![diag(DiagnosticKind::UndefinedVariable, "b")]);
}

#[test]
fn member_literal_cycle_is_reported_and_left_out() {
    let (r, diags) = resolve_in("x = { x }", "x");
    assert_eq!(r, Some("{  }".to_string()));
    assert_eq!(
        diags,
        vec![diag(DiagnosticKind::CircularReference, "x"), diag(DiagnosticKind::UndefinedVariable, "x")]
    );
}

#[test]
fn later_declaration_wins_in_place() {
    let c = compile("a = 1\nb = \"x\"\na = 2\nobj -> { a, b }");
    assert_eq!(c.document, "{\"obj\": {\"a\": 2, \"b\": \"x\"}}");
}

#[test]
fn objects_keep_declaration_order() {
    let c = compile("a = 1\no1 -> { a }\no2 -> { a }");
    assert_eq!(c.document, "{\"o1\": {\"a\": 1}, \"o2\": {\"a\": 1}}");
}

#[test]
fn variable_lines() {
    assert!(is_variable("a = 1"));
    assert!(is_variable("  name=\"text\"  "));
    assert!(!is_variable("a b = 1"));
    assert!(!is_variable("a->b = 1"));
    assert!(!is_variable("a ="));
    assert!(!is_variable("= 1"));
    assert!(!is_variable("obj -> { a }"));
}

#[test]
fn object_lines() {
    assert!(is_object("o -> { a }"));
    assert!(is_object("o->{}"));
    assert!(!is_object("o -> a"));
    assert!(!is_object("-> { a }"));
    assert!(!is_object("o = { a }"));
}

#[test]
fn classify_parses_values() {
    match classify_line("a = [1, 2 ,, 3]") {
        Line::Variable { key, value: RawValue::Array(t) } => {
            assert_eq!(key, "a");
            assert_eq!(t, vec!["1".to_string(), "2".to_string(), "3".to_string()]);
        },
        _ => panic!("expected an array variable"),
    }
    match classify_line("o -> { x , y }") {
        Line::Object { key, members } => {
            assert_eq!(key, "o");
            assert_eq!(members, vec!["x".to_string(), "y".to_string()]);
        },
        _ => panic!("expected an object"),
    }
    match classify_line("s = \"hello\"") {
        Line::Variable { value: RawValue::Scalar(s), .. } => assert_eq!(s, "\"hello\""),
        _ => panic!("expected a scalar variable"),
    }
    assert!(matches!(classify_line("nothing here"), Line::Unclassifiable));
}

#[test]
fn output_path_replaces_suffix() {
    let g = JsonGenerator { input: "conf.jg".to_string() };
    assert_eq!(g.output_path(), Some("conf.json".to_string()));
    let g = JsonGenerator { input: "conf.txt".to_string() };
    assert_eq!(g.output_path(), None);
    let g = JsonGenerator { input: "jg".to_string() };
    assert_eq!(g.output_path(), None);
}

#[test]
fn diagnostic_messages_name_the_subject() {
    assert_eq!(
        diag(DiagnosticKind::CircularReference, "x").message(),
        "circular reference to variable 'x'"
    );
    assert_eq!(diag(DiagnosticKind::UndefinedVariable, "m").message(), "variable 'm' is undefined");
    assert_eq!(diag(DiagnosticKind::UnusedVariable, "b").message(), "variable 'b' is declared but never used");
    assert_eq!(diag(DiagnosticKind::UnclassifiableLine, "???").message(), "invalid line: ???");
}

#[test]
fn variable_named_only_by_another_is_used() {
    let c = compile("a = [b]\nb = 1\nobj -> { a }");
    assert_eq!(c.document, "{\"obj\": {\"a\": [1]}}");
    assert!(c.diagnostics.is_empty());
}
