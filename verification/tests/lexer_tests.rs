use tokr::lexer::{Lexer, TokenKind};

#[test]
fn test_normal_theme_comment() {
    let (tokens, diags) = Lexer::new("/* @theme palette.accent */").tokenize();
    assert!(diags.is_empty());
    assert_eq!(
        tokens[0].kind,
        TokenKind::ThemeComment("palette.accent".to_string())
    );
}

#[test]
fn test_keep_sorted_exclusion() {
    let (tokens, diags) = Lexer::new("/* keep-sorted */").tokenize();
    assert!(diags.is_empty());
    assert_eq!(tokens.len(), 1);
    assert_eq!(tokens[0].kind, TokenKind::Eof);
}

#[test]
fn test_star_plus_slash_tolerance() {
    let (tokens, diags) = Lexer::new("/* @theme palette.accent **/").tokenize();
    assert!(diags.is_empty());
    assert_eq!(
        tokens[0].kind,
        TokenKind::ThemeComment("palette.accent".to_string())
    );
}

#[test]
fn test_variables_and_properties() {
    let (tokens, diags) = Lexer::new("$accent-foreground: var(--accent-foreground);").tokenize();
    assert!(diags.is_empty());
    assert_eq!(tokens[0].kind, TokenKind::Dollar);
    assert_eq!(
        tokens[1].kind,
        TokenKind::Ident("accent-foreground".to_string())
    );
    assert_eq!(tokens[2].kind, TokenKind::Colon);
    assert_eq!(tokens[3].kind, TokenKind::VarKw);
    assert_eq!(tokens[4].kind, TokenKind::LParen);
    assert_eq!(
        tokens[5].kind,
        TokenKind::CssCustomProp("--accent-foreground".to_string())
    );
    assert_eq!(tokens[6].kind, TokenKind::RParen);
    assert_eq!(tokens[7].kind, TokenKind::Semicolon);
}

#[test]
fn lib_test_css_variables() {
    let (tokens, diags) = Lexer::new("/* @theme a */ --var: 1;").tokenize();
    assert!(diags.is_empty());
    assert_eq!(tokens[0].kind, TokenKind::ThemeComment("a".to_string()));
    assert_eq!(tokens[1].kind, TokenKind::CssCustomProp("--var".to_string()));
    assert_eq!(tokens[2].kind, TokenKind::Colon);
    assert_eq!(tokens[3].kind, TokenKind::Number(1));
    assert_eq!(tokens[4].kind, TokenKind::Semicolon);
}

#[test]
fn lexer_ends_with_eof_and_spans_tokens() {
    let (tokens, diags) = Lexer::new("$a: 1;").tokenize();
    assert!(diags.is_empty());
    assert_eq!(tokens.last().unwrap().kind, TokenKind::Eof);
    assert_eq!(tokens[0].span.lo, 0);
    assert_eq!(tokens[0].span.hi, 1);
}

#[test]
fn lexer_reports_unclosed_comment() {
    let (_tokens, diags) = Lexer::new("/* @theme a").tokenize();
    assert_eq!(diags.len(), 1);
    assert_eq!(diags[0].code, "TC0002");
}

#[test]
fn lexer_faults_on_comment_window_inside_a_character() {
    assert!(Lexer::new("/* a\u{65e5}\u{672c} */").faults());
    assert!(!Lexer::new("/* \u{65e5}\u{672c} */").faults());
    assert!(!Lexer::new("/* @theme a */ $a: 1;").faults());
}
