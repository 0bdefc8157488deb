use tokr::diagnostics::{DiagnosticBag, Severity};
use tokr::driver::compile;
use tokr::ir::PassConfig;
use tokr::span::{SourceMap, Span};

#[test]
fn span_merge_covers_both_and_commutes() {
    let a = Span::new(3, 7);
    let b = Span::new(5, 12);
    let c = Span::new(1, 4);
    assert_eq!(a.merge(b), Span::new(3, 12));
    assert_eq!(a.merge(b), b.merge(a));
    assert_eq!(a.merge(b).merge(c), a.merge(b.merge(c)));
    assert_eq!(a.merge(a), a);
}

#[test]
fn source_map_lines_and_columns() {
    let map = SourceMap::new("ab\ncd\n\nx".to_string());
    assert_eq!(map.line_col(0), (1, 1));
    assert_eq!(map.line_col(1), (1, 2));
    assert_eq!(map.line_col(3), (2, 1));
    assert_eq!(map.line_col(4), (2, 2));
    assert_eq!(map.line_col(6), (3, 1));
    assert_eq!(map.line_col(7), (4, 1));
    assert_eq!(map.snippet(Span::new(3, 5)), "cd");
}

#[test]
fn promotion_makes_every_diagnostic_an_error() {
    let mut bag = DiagnosticBag::default();
    bag.warn("W1", "first".to_string(), Span::new(0, 1));
    bag.error("E1", "second".to_string(), Span::new(1, 2));
    bag.warn("W2", "third".to_string(), Span::new(2, 3));
    bag.promote_warnings_to_errors();
    assert_eq!(bag.len(), 3);
    assert!(bag.iter().all(|d| d.severity == Severity::Error));
    let codes: Vec<_> = bag.iter().map(|d| d.code).collect();
    assert_eq!(codes, vec!["W1", "E1", "W2"]);
    let before: Vec<_> = bag.iter().map(|d| d.message.clone()).collect();
    bag.promote_warnings_to_errors();
    let after: Vec<_> = bag.iter().map(|d| d.message.clone()).collect();
    assert_eq!(before, after);
}

#[test]
fn recording_errors_and_warnings() {
    let mut bag = DiagnosticBag::new();
    assert!(bag.is_empty());
    bag.warn("W", "w".to_string(), Span::new(0, 0));
    assert!(!bag.has_errors());
    bag.error("E", "e".to_string(), Span::new(0, 0));
    assert!(bag.has_errors());
    bag.warn("W", "w".to_string(), Span::new(0, 0));
    assert!(bag.has_errors());
    assert_eq!(bag.as_slice().len(), 3);
}

#[test]
fn compiled_theme_holds_each_declared_value() {
    let src = "/* @theme a.b[1].c */\n$x: 1px;\n/* @theme a.b[0] */\n$y: 2px;\n/* @theme d */\n--d: var(--d);";
    let ts = compile(src, &PassConfig::default(), false, None, false, false)
        .unwrap()
        .unwrap()
        .0;
    assert_eq!(
        ts,
        "export const theme = {a: {b: [\"2px\",{c: \"1px\"}]},d: \"var(--d)\"} as const;\n"
    );
}

#[test]
fn strict_compile_of_dense_arrays_has_no_holes() {
    let src = "/* @theme s[1] */\n$a: 1;\n/* @theme s[0] */\n$b: 2;";
    let strict = PassConfig {
        strict: true,
        order_table: Vec::new(),
    };
    let ts = compile(src, &strict, false, None, false, false)
        .unwrap()
        .unwrap()
        .0;
    assert!(!ts.contains("undefined"));
    assert_eq!(ts, "export const theme = {s: [\"2\",\"1\"]} as const;\n");
}

#[test]
fn conflicting_shapes_are_reported_not_lowered() {
    let src = "/* @theme a */\n$a: 1;\n/* @theme a.b */\n$b: 2;";
    let err = compile(src, &PassConfig::default(), false, None, false, false).unwrap_err();
    assert!(err.iter().any(|d| d.code == "TC0203"));
}
