use tokr::driver::{check_drift, compile, plan_outputs, try_compile, ProjectResult};
use tokr::config::{HexCase, LintConfig};
use tokr::diagnostics::DiagnosticBag;
use tokr::ir::PassConfig;

const SAMPLE: &str = "
/* @theme colors.secondary */
$secondary: #00ff00;

/* @theme colors.primary */
$primary: #ff0000;

/* @theme button.padding */
$button-padding: 8px 16px;

/* @theme button.radius */
$button-radius: 4px;
";

#[test]
fn test_golden_sample() {
    let src = SAMPLE;
    let order_table = vec![(
        "colors".to_string(),
        vec!["primary".to_string(), "secondary".to_string()],
    )];

    let cfg = PassConfig {
        strict: false,
        order_table,
    };

    let Some((ts, _dts)) =
        compile(src, &cfg, false, None, false, false).expect("Should compile successfully")
    else {
        panic!("expected Some output")
    };

    assert!(ts.contains("export const theme ="));
    assert!(ts.contains("colors: {"));
    assert!(ts.contains("primary: \"#ff0000\""));
    assert!(ts.contains("button: {"));
}

#[test]
fn test_box_shadow_array() {
    let src = "
    /* @theme boxShadow[0] */
    $shadow-sm: 0 1px 2px rgba(0,0,0,0.1);
    
    /* @theme boxShadow[2] */
    $shadow-lg: 0 4px 6px rgba(0,0,0,0.1);
    ";

    let cfg = PassConfig {
        strict: false,
        order_table: Vec::new(),
    };

    let Some((ts, _dts)) =
        compile(src, &cfg, false, None, false, false).expect("Should compile successfully")
    else {
        panic!("expected Some output")
    };

    assert!(ts.contains("boxShadow: ["));
    assert!(ts.contains("\"0 1px 2px rgba(0,0,0,0.1)\""));
    assert!(ts.contains("undefined"));
    assert!(ts.contains("\"0 4px 6px rgba(0,0,0,0.1)\""));
}

#[test]
fn e2e_tests_test_css_variables() {
    let src = "
    /* @theme color.accent.base */
    --accent: #fafafa;
    
    /* @theme color.black */
    --black: #000;
    
    /* @theme color.accent.foreground */
    --accent-foreground: var(--black);
    ";

    let cfg = PassConfig {
        strict: false,
        order_table: Vec::new(),
    };

    let Some((ts, _dts)) =
        compile(src, &cfg, false, None, false, false).expect("Should compile successfully")
    else {
        panic!("expected Some output")
    };

    assert!(ts.contains("color: {"));
    assert!(ts.contains("accent: {"));
    assert!(ts.contains("base: \"#fafafa\""));
    assert!(ts.contains("black: \"#000\""));
    assert!(ts.contains("foreground: \"var(--black)\""));
}

#[test]
fn test_css_variable_name_mismatches() {
    let src = "
    /* @theme sidebar.primary */
    --color-sidebar-primary: var(--sidebar-primary);
    
    /* @theme sidebar.primary_foreground */
    --color-sidebar-primary-foreground: var(--sidebar-primary-foreground);
    
    /* @theme sidebar.accent */
    --color-sidebar-accent: var(--sidebar-accent);
    
    /* @theme sidebar.accent_foreground */
    --color-sidebar-accent-foreground: var(--sidebar-accent-foreground);
    
    /* @theme sidebar.border */
    --color-sidebar-border: var(--sidebar-border);
    
    /* @theme sidebar.ring */
    --color-sidebar-ring: var(--sidebar-ring);
    
    /* @theme radius.lg */
    --radius-lg: var(--radius);
    ";

    let cfg = PassConfig {
        strict: true,
        order_table: Vec::new(),
    };

    let res = compile(src, &cfg, false, None, false, false);
    assert!(res.is_err());
    let errs = res.unwrap_err().into_vec();

    let tc0202_errors: Vec<_> = errs.iter().filter(|d| d.code == "TC0202").collect();
    assert_eq!(tc0202_errors.len(), 7);

    let res_allowed = compile(src, &cfg, true, None, false, false);
    assert!(res_allowed.is_ok());
}

#[test]
fn compile_exact_module_and_declarations() {
    let src = "/* @theme b */\n$b: 2px;\n/* @theme a[0] */\n$a: var(--a);";
    let cfg = PassConfig::default();
    let out = compile(src, &cfg, false, None, true, true).unwrap().unwrap();
    assert_eq!(out.0, "export const theme = {a: [\"var(--a)\"],b: \"2px\"};\n");
    assert_eq!(
        out.1,
        Some("export declare const theme: {a: [string],b: string};\n".to_string())
    );
    let ts = compile(src, &cfg, false, None, false, true).unwrap().unwrap();
    assert_eq!(ts.0, "export const theme = {a: [\"var(--a)\"],b: \"2px\"} as const;\n");
    assert_eq!(ts.1, None);
}

#[test]
fn compile_without_declarations_gives_empty_theme() {
    let cfg = PassConfig::default();
    let out = compile("$a: 1;", &cfg, false, None, true, true).unwrap().unwrap();
    assert_eq!(out.0, "export const theme = {};\n");
    assert_eq!(out.1, Some("export declare const theme: {};\n".to_string()));
}

#[test]
fn compile_stops_at_syntax_errors() {
    let cfg = PassConfig::default();
    let err = compile("/* @theme a */\n$a 1;", &cfg, false, None, false, false).unwrap_err();
    assert!(err.has_errors());
    assert!(err.iter().any(|d| d.code == "TC0102"));
}

#[test]
fn compile_runs_configured_lint_rules() {
    let src = "/* @theme c */\n$My_Color: #FFF;";
    let lint = LintConfig {
        kebab_case_vars: None,
        hex_case: Some(HexCase::Lower),
    };
    let cfg = PassConfig::default();
    let out = compile(src, &cfg, false, Some(&lint), false, false);
    assert!(out.is_ok());

    let strict = PassConfig {
        strict: true,
        order_table: Vec::new(),
    };
    let err = compile(src, &strict, false, Some(&lint), false, false).unwrap_err();
    let codes: Vec<_> = err.iter().map(|d| d.code).collect();
    assert_eq!(codes, vec!["LINT001", "LINT002"]);

    let off = LintConfig {
        kebab_case_vars: Some(false),
        hex_case: None,
    };
    assert!(compile(src, &strict, false, Some(&off), false, false).is_ok());
}

#[test]
fn strict_mode_rejects_sparse_arrays() {
    let src = "/* @theme s[0] */\n$a: 1;\n/* @theme s[2] */\n$b: 2;";
    let strict = PassConfig {
        strict: true,
        order_table: Vec::new(),
    };
    let err = compile(src, &strict, false, None, false, false).unwrap_err();
    assert!(err.iter().any(|d| d.code == "TC0204"));
}

#[test]
fn try_compile_refuses_comment_cut_inside_a_character() {
    let cfg = PassConfig::default();
    assert!(try_compile("/* a\u{65e5}\u{672c} */\n$a: 1;", &cfg, false, None, false, false).is_none());
    assert!(try_compile("/* \u{65e5}\u{672c} */\n$a: 1;", &cfg, false, None, false, false).is_some());
}

#[test]
fn try_compile_refuses_huge_index() {
    let cfg = PassConfig::default();
    assert!(try_compile("/* @theme a[99999999999] */\n$a: 1;", &cfg, false, None, false, false).is_none());
    assert!(try_compile("/* @theme a */\n$a: 1;", &cfg, false, None, false, false).is_some());
}

#[test]
fn project_result_tallies_outcomes() {
    let mut bag = DiagnosticBag::default();
    bag.error("IO_ERROR", "boom".to_string(), tokr::span::Span::new(0, 0));
    let r = ProjectResult::collect(vec![Ok(()), Err(("x.scss".to_string(), bag)), Ok(())]);
    assert_eq!(r.success_count, 2);
    assert_eq!(r.errors.len(), 1);
    assert_eq!(r.errors[0].0, "x.scss");
}

#[test]
fn drift_check_outcomes() {
    assert!(check_drift("out.ts", Some("abc"), "abc").is_ok());
    let stale = check_drift("out.ts", Some("abd"), "abc").unwrap_err().into_vec();
    assert_eq!(stale[0].code, "DRIFT_ERROR");
    assert_eq!(stale[0].message, "File out.ts is out of date");
    let missing = check_drift("out.ts", None, "abc").unwrap_err().into_vec();
    assert_eq!(missing[0].message, "File out.ts is missing");
}

#[test]
fn plan_outputs_lists_module_then_declarations() {
    let plan = plan_outputs("/p/src/_a.scss", "/p", "/out", true, "M".to_string(), Some("D".to_string()));
    assert_eq!(
        plan,
        vec![
            ("/out/src/a.js".to_string(), "M".to_string()),
            ("/out/src/a.d.ts".to_string(), "D".to_string()),
        ]
    );
    let ts = plan_outputs("/p/a.scss", "/p", "/out", false, "M".to_string(), None);
    assert_eq!(ts, vec![("/out/a.ts".to_string(), "M".to_string())]);
    assert!(plan_outputs("/x/a.scss", "/p", "/out", true, "M".to_string(), Some("D".to_string())).is_empty());
}
