use tokr::ast::{File, PathSegment};
use tokr::diagnostics::{DiagnosticBag, Severity};
use tokr::lexer::Lexer;
use tokr::parser::Parser;
use tokr::sema::{analyze, analyze_with, SymbolTable};

fn parse_test_file(src: &str) -> (File, DiagnosticBag) {
    let (tokens, lex_diags) = Lexer::new(src).tokenize();
    let mut bag = DiagnosticBag::default();
    bag.extend(lex_diags);
    let parser = Parser::new(src, &tokens, &mut bag);
    (parser.parse_file(), bag)
}

fn analyze_src(src: &str) -> (SymbolTable, DiagnosticBag) {
    let (file, mut bag) = parse_test_file(src);
    let table = analyze(&file, &mut bag);
    (table, bag)
}

#[test]
fn test_duplicate_path() {
    let src = "/* @theme a.b */\n$a: 1;\n/* @theme a.b */\n$b: 2;";
    let (_, diags) = analyze_src(src);
    let errs = diags.into_vec();
    assert!(errs.iter().any(|d| d.code == "TC0201"));
}

#[test]
fn test_name_consistency() {
    let src = "/* @theme a.b */\n$accent: var(--primary);";
    let (_, diags) = analyze_src(src);
    let errs = diags.into_vec();
    assert!(errs.iter().any(|d| d.code == "TC0202"));
}

#[test]
fn test_path_shape_conflicts() {
    let src = "/* @theme a.b */\n$a: 1;\n/* @theme a.b.c */\n$b: 2;";
    let (_, diags) = analyze_src(src);
    let errs = diags.into_vec();
    assert!(errs.iter().any(|d| d.code == "TC0203"));

    let src2 = "/* @theme a[0] */\n$a: 1;\n/* @theme a.b */\n$b: 2;";
    let (_, diags2) = analyze_src(src2);
    let errs2 = diags2.into_vec();
    assert!(errs2.iter().any(|d| d.code == "TC0203"));
}

#[test]
fn test_array_index_contiguity() {
    let src = "/* @theme a[0] */\n$a: 1;\n/* @theme a[2] */\n$b: 2;";
    let (_, diags) = analyze_src(src);
    let errs = diags.into_vec();
    assert!(errs.iter().any(|d| d.code == "TC0204"));
}

#[test]
fn duplicate_path_keeps_first_entry_and_reports_twice() {
    let src = "/* @theme a.b */\n$a: 1;\n/* @theme a.b */\n$b: 2;";
    let (table, diags) = analyze_src(src);
    assert_eq!(table.entries.len(), 1);
    let dups: Vec<_> = diags.iter().filter(|d| d.code == "TC0201").collect();
    assert_eq!(dups.len(), 2);
    assert_eq!(dups[0].message, "duplicate path");
    assert_eq!(dups[1].message, "previously declared here");
    assert!(dups.iter().all(|d| d.severity == Severity::Error));
}

#[test]
fn name_mismatch_message_and_switch() {
    let src = "/* @theme a.b */\n$accent: var(--primary);";
    let (file, mut bag) = parse_test_file(src);
    let _ = analyze(&file, &mut bag);
    let d = bag.iter().find(|d| d.code == "TC0202").unwrap();
    assert_eq!(d.severity, Severity::Warning);
    assert_eq!(
        d.message,
        "name mismatch: scss variable $accent but css variable --primary"
    );

    let (file, mut bag) = parse_test_file(src);
    let _ = analyze_with(&file, &mut bag, false);
    assert!(!bag.iter().any(|d| d.code == "TC0202"));
}

#[test]
fn sparse_array_warns_for_each_gap() {
    let src = "/* @theme a[0] */\n$a: 1;\n/* @theme a[3] */\n$b: 2;";
    let (_, diags) = analyze_src(src);
    let gaps: Vec<_> = diags.iter().filter(|d| d.code == "TC0204").collect();
    assert_eq!(gaps.len(), 2);
    assert_eq!(gaps[0].message, "sparse array at index 1");
    assert_eq!(gaps[1].message, "sparse array at index 2");
    assert_eq!(gaps[0].severity, Severity::Warning);
}

#[test]
fn table_lookup_finds_entries() {
    let (table, diags) = analyze_src("/* @theme a.b */\n$a: 1;\n/* @theme c[0] */\n$c: 2;");
    assert!(!diags.has_errors());
    let p = vec![PathSegment::Field("a".to_string()), PathSegment::Field("b".to_string())];
    assert!(table.contains_key(&p));
    assert_eq!(table.find(&p), Some(0));
    let q = vec![PathSegment::Field("c".to_string()), PathSegment::Index(0)];
    assert_eq!(table.find(&q), Some(1));
    assert!(table.get(&vec![PathSegment::Field("z".to_string())]).is_none());
}
