use tokr::ast::{File, PathSegment, Value};
use tokr::diagnostics::DiagnosticBag;
use tokr::lexer::Lexer;
use tokr::parser::Parser;

fn parse(src: &str) -> (File, DiagnosticBag) {
    let (tokens, lex_diags) = Lexer::new(src).tokenize();
    let mut bag = DiagnosticBag::default();
    let parser = Parser::new(src, &tokens, &mut bag);
    let file = parser.parse_file();

    let mut diags = DiagnosticBag::default();
    diags.extend(lex_diags);
    diags.extend(bag.into_vec());
    (file, diags)
}

#[test]
fn test_valid_decl() {
    let src = "/* @theme palette.accent */\n$accent: var(--accent);";
    let (file, diags) = parse(src);
    assert_eq!(file.decls.len(), 1);
    let d = &file.decls[0];
    assert_eq!(
        d.path,
        vec![
            PathSegment::Field("palette".to_string()),
            PathSegment::Field("accent".to_string())
        ]
    );
    assert_eq!(d.var_name, "accent");
    assert!(d.is_sass_var);
    match &d.value {
        Value::VarRef { css_var, .. } => assert_eq!(css_var, "--accent"),
        other => panic!("unexpected value {:?}", other),
    }
    assert!(!diags.has_errors());
}

#[test]
fn test_valid_decl_array() {
    let src = "/* @theme boxShadow[0] */\n$shadow: var(--shadow);";
    let (file, diags) = parse(src);
    assert_eq!(file.decls.len(), 1);
    assert_eq!(
        file.decls[0].path,
        vec![PathSegment::Field("boxShadow".to_string()), PathSegment::Index(0)]
    );
    assert_eq!(file.decls[0].var_name, "shadow");
    assert!(!diags.has_errors());
}

#[test]
fn test_recovery_missing_semicolon() {
    let src = "/* @theme a */\n$a: 1\n/* @theme b */\n$b: 2;";
    let (file, diags) = parse(src);
    // Recovery skips the token where the error was found, which here is the
    // `@theme` comment of the next declaration.
    assert!(file.decls.is_empty());
    assert!(diags.iter().any(|d| d.code == "TC0102"));
    assert!(diags.has_errors());
}

#[test]
fn test_stray_token() {
    let src = "$stray: 1; /* @theme a */\n$a: 1;";
    let (file, diags) = parse(src);
    assert_eq!(file.decls.len(), 1);
    assert_eq!(file.decls[0].path, vec![PathSegment::Field("a".to_string())]);
    match &file.decls[0].value {
        Value::Raw { text, .. } => assert_eq!(text, "1"),
        other => panic!("unexpected value {:?}", other),
    }
    assert!(!diags.has_errors());
}

#[test]
fn test_sass_var_without_theme() {
    let src = "$color: var(--color);";
    let (file, diags) = parse(src);
    assert!(file.decls.is_empty());
    assert!(!diags.has_errors());
}

#[test]
fn test_css_custom_prop_without_theme() {
    let src = "--spacing: 1rem;";
    let (file, diags) = parse(src);
    assert!(file.decls.is_empty());
    assert!(!diags.has_errors());
}

#[test]
fn test_non_variable_statement_no_warning() {
    let src = "@use \"sass:color\" as color;";
    let (file, diags) = parse(src);
    assert!(file.decls.is_empty());
    assert!(!diags.has_errors());
}

#[test]
fn parser_reports_empty_path() {
    let (file, diags) = parse("/* @theme */\n$a: 1;");
    assert!(file.decls.is_empty());
    assert!(diags.iter().any(|d| d.code == "TC0103"));
}

#[test]
fn parser_reports_bad_index() {
    let (_file, diags) = parse("/* @theme a[x] */\n$a: 1;");
    assert!(diags.iter().any(|d| d.code == "TC0105"));
    let (_file, diags) = parse("/* @theme a[1 */\n$a: 1;");
    assert!(diags.iter().any(|d| d.code == "TC0106"));
}

#[test]
fn parser_reads_css_custom_prop_decl() {
    let (file, diags) = parse("/* @theme color.black */\n--black: #000;");
    assert!(!diags.has_errors());
    assert_eq!(file.decls.len(), 1);
    assert_eq!(file.decls[0].var_name, "black");
    assert!(!file.decls[0].is_sass_var);
    match &file.decls[0].value {
        Value::Raw { text, .. } => assert_eq!(text, "#000"),
        other => panic!("unexpected value {:?}", other),
    }
}

#[test]
fn try_parse_file_refuses_huge_index() {
    let src = "/* @theme a[99999999999] */\n$a: 1;";
    let (tokens, _) = Lexer::new(src).tokenize();
    let mut bag = DiagnosticBag::default();
    let parser = Parser::new(src, &tokens, &mut bag);
    assert!(parser.try_parse_file().is_none());
}

#[test]
fn path_segments_may_use_unicode_letters() {
    let (file, diags) = parse("/* @theme café.größe */\n$a: 1;");
    assert!(!diags.has_errors());
    assert_eq!(
        file.decls[0].path,
        vec![
            PathSegment::Field("café".to_string()),
            PathSegment::Field("größe".to_string())
        ]
    );
}

#[test]
fn raw_values_are_trimmed_of_unicode_whitespace() {
    let (file, diags) = parse("/* @theme a */\n$a: 1px\u{A0};");
    assert!(!diags.has_errors());
    match &file.decls[0].value {
        Value::Raw { text, .. } => assert_eq!(text, "1px"),
        other => panic!("unexpected value {:?}", other),
    }
}
