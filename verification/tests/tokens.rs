use xox::diagnostics::{Diagnostic, DiagnosticKind};
use xox::scanner::Scanner;
use xox::token::{reserved_to_tokentype, LiteralType, Token, TokenType};

#[test]
fn reserved_words_map_to_their_own_kinds() {
    assert_eq!(
        reserved_to_tokentype(&"and".to_string()),
        Some(TokenType::And)
    );
    assert_eq!(
        reserved_to_tokentype(&"while".to_string()),
        Some(TokenType::While)
    );
    assert_eq!(
        reserved_to_tokentype(&"nil".to_string()),
        Some(TokenType::Nil)
    );
}

#[test]
fn keyword_lookup_is_exact_and_case_sensitive() {
    assert_eq!(reserved_to_tokentype(&"orchid".to_string()), None);
    assert_eq!(reserved_to_tokentype(&"And".to_string()), None);
    assert_eq!(reserved_to_tokentype(&"an".to_string()), None);
    assert_eq!(reserved_to_tokentype(&"classes".to_string()), None);
    assert_eq!(reserved_to_tokentype(&"".to_string()), None);
}

#[test]
fn token_new_keeps_its_parts() {
    let t = Token::new(
        TokenType::Literal(LiteralType::Identifier("x".to_string())),
        "x".to_string(),
        7,
    );
    assert_eq!(
        t.token_type,
        TokenType::Literal(LiteralType::Identifier("x".to_string()))
    );
    assert_eq!(t.lexeme, "x");
    assert_eq!(t.line, 7);
}

#[test]
fn error_builds_the_diagnostic_record() {
    let d = xox::diagnostics::error(3, DiagnosticKind::UnterminatedString);
    assert_eq!(
        d,
        Diagnostic { kind: DiagnosticKind::UnterminatedString, line: 3 }
    );
}

#[test]
fn get_tokens_hands_out_an_equal_copy() {
    let mut scanner = Scanner::new();
    scanner.scan_tokens("var answer = 42");
    let first = scanner.get_tokens();
    let second = scanner.get_tokens();
    assert_eq!(first, second);
    assert_eq!(first.len(), 5);
}

#[test]
fn fresh_scanner_on_empty_input_yields_only_eof() {
    let mut scanner = Scanner::new();
    scanner.scan_tokens("");
    let tokens = scanner.get_tokens();
    assert_eq!(tokens.len(), 1);
    assert_eq!(tokens[0].token_type, TokenType::EOF);
    assert_eq!(tokens[0].lexeme, "");
    assert_eq!(tokens[0].line, 1);
    assert!(scanner.get_diagnostics().is_empty());
}

#[test]
fn identifiers_may_hold_underscores_and_digits() {
    let mut scanner = Scanner::new();
    scanner.scan_tokens("_tally_2");
    let tokens = scanner.get_tokens();
    assert_eq!(
        tokens[0].token_type,
        TokenType::Literal(LiteralType::Identifier("_tally_2".to_string()))
    );
}
