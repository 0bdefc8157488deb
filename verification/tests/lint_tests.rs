use tokr::ast::{File, ThemeDecl, Value};
use tokr::config::HexCase;
use tokr::diagnostics::{rendered_notes, Diagnostic, DiagnosticBag, LintFix, Severity};
use tokr::lint_rules::{report_hex_case, report_kebab_case, HexCaseRule, KebabCaseVarsRule};
use tokr::linter::{LintRule, Linter};
use tokr::span::Span;

fn test_file(var_name: &str, is_sass_var: bool, val: Value) -> File {
    File {
        decls: vec![ThemeDecl {
            path: Vec::new(),
            path_span: Span::new(0, 0),
            var_name: var_name.to_string(),
            is_sass_var,
            value: val,
            span: Span::new(0, 10),
        }],
    }
}

fn raw(s: &str) -> Value {
    Value::Raw {
        text: s.to_string(),
        span: Span::new(0, 0),
    }
}

#[test]
fn test_hex_case() {
    let rule = HexCaseRule::new(HexCase::Lower);
    let mut diags = DiagnosticBag::default();

    rule.check_file(&test_file("a", true, raw("#ffffff")), &mut diags);
    assert!(diags.is_empty());

    rule.check_file(&test_file("a", true, raw("#FFFFFF")), &mut diags);
    assert!(!diags.is_empty());
    let diag = diags.into_vec().into_iter().next().unwrap();
    assert_eq!(diag.fix.unwrap().replacement, "#ffffff");
}

#[test]
fn test_kebab_case() {
    let rule = KebabCaseVarsRule;
    let mut diags = DiagnosticBag::default();

    rule.check_file(&test_file("my-var", true, raw("1")), &mut diags);
    assert!(diags.is_empty());

    rule.check_file(&test_file("my_var", true, raw("1")), &mut diags);
    assert!(!diags.is_empty());
}

#[test]
fn hex_case_upper_message_and_fix() {
    let rule = HexCaseRule::new(HexCase::Upper);
    let mut diags = DiagnosticBag::default();
    rule.check_file(
        &test_file(
            "a",
            true,
            Value::Raw {
                text: "#abcdef".to_string(),
                span: Span::new(3, 10),
            },
        ),
        &mut diags,
    );
    let d = diags.into_vec().remove(0);
    assert_eq!(d.code, "LINT002");
    assert_eq!(d.severity, Severity::Warning);
    assert_eq!(d.message, "Hex color '#abcdef' should be Upper");
    assert_eq!(d.span, Span::new(3, 10));
    let fix = d.fix.unwrap();
    assert_eq!(fix.replacement, "#ABCDEF");
    assert_eq!(fix.span, Span::new(3, 10));
}

#[test]
fn hex_case_ignores_non_hex_and_var_refs() {
    let rule = HexCaseRule::new(HexCase::Lower);
    let mut diags = DiagnosticBag::default();
    rule.check_file(&test_file("a", true, raw("RED")), &mut diags);
    rule.check_file(
        &test_file(
            "a",
            true,
            Value::VarRef {
                css_var: "--A".to_string(),
                span: Span::new(0, 0),
            },
        ),
        &mut diags,
    );
    assert!(diags.is_empty());
    assert_eq!(rule.name(), "hex-case");
}

#[test]
fn kebab_case_message_suggests_a_name() {
    let rule = KebabCaseVarsRule;
    let mut diags = DiagnosticBag::default();
    rule.check_file(&test_file("My_Var", true, raw("1")), &mut diags);
    let d = diags.into_vec().remove(0);
    assert_eq!(d.code, "LINT001");
    assert_eq!(
        d.message,
        "Variable name 'My_Var' is not kebab-case (try 'my-var')"
    );
    assert_eq!(d.span, Span::new(0, 10));
    assert!(d.fix.is_none());
    assert_eq!(rule.name(), "kebab-case-vars");
}

#[test]
fn linter_runs_rules_in_order() {
    let rules: Vec<Box<dyn LintRule>> = vec![
        Box::new(KebabCaseVarsRule),
        Box::new(HexCaseRule::new(HexCase::Lower)),
    ];
    let linter = Linter::new(rules);
    let mut diags = DiagnosticBag::default();
    linter.lint_file(&test_file("Bad", true, raw("#ABC")), &mut diags);
    let v = diags.into_vec();
    assert_eq!(v.len(), 2);
    assert_eq!(v[0].code, "LINT001");
    assert_eq!(v[1].code, "LINT002");
}

#[test]
fn report_hex_case_warns_only_on_a_difference() {
    let mut diags = DiagnosticBag::new();
    report_hex_case(HexCase::Lower, &"#ABC".to_string(), Span::new(3, 7), "#abc".to_string(), &mut diags);
    report_hex_case(HexCase::Lower, &"#abc".to_string(), Span::new(9, 13), "#abc".to_string(), &mut diags);
    let v = diags.into_vec();
    assert_eq!(v.len(), 1);
    assert_eq!(v[0].severity, Severity::Warning);
    assert_eq!(v[0].code, "LINT002");
    assert_eq!(v[0].message, "Hex color '#ABC' should be Lower");
    assert_eq!(v[0].span, Span::new(3, 7));
    let fix = v[0].fix.as_ref().unwrap();
    assert_eq!(fix.span, Span::new(3, 7));
    assert_eq!(fix.replacement, "#abc");
}

#[test]
fn report_kebab_case_names_the_suggestion() {
    let mut diags = DiagnosticBag::new();
    report_kebab_case(&"myVar".to_string(), Span::new(0, 6), &"myvar".to_string(), &mut diags);
    let v = diags.into_vec();
    assert_eq!(v.len(), 1);
    assert_eq!(v[0].severity, Severity::Warning);
    assert_eq!(v[0].code, "LINT001");
    assert_eq!(v[0].message, "Variable name 'myVar' is not kebab-case (try 'myvar')");
    assert!(v[0].fix.is_none());
}

#[test]
fn rendered_notes_add_the_suggestion() {
    let with_fix = Diagnostic {
        severity: Severity::Warning,
        code: "LINT002",
        message: "m".to_string(),
        span: Span::new(0, 1),
        notes: vec!["n1".to_string()],
        fix: Some(LintFix { span: Span::new(0, 1), replacement: "#abc".to_string() }),
    };
    assert_eq!(
        rendered_notes(&with_fix),
        vec!["n1".to_string(), "Suggestion: replace with `#abc`".to_string()]
    );
    let plain = Diagnostic { fix: None, ..with_fix };
    assert_eq!(rendered_notes(&plain), vec!["n1".to_string()]);
}
