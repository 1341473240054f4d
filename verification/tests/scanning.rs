use xox::diagnostics::{Diagnostic, DiagnosticKind};
use xox::scanner::Scanner;
use xox::token::{LiteralType, Token, TokenType};

fn scan(source: &str) -> (Vec<Token>, Vec<Diagnostic>) {
    let mut scanner = Scanner::new();
    scanner.scan_tokens(source);
    (scanner.get_tokens(), scanner.get_diagnostics())
}

fn kinds(tokens: &[Token]) -> Vec<TokenType> {
    tokens.iter().map(|t| t.token_type.clone()).collect()
}

#[test]
fn punctuation_run_on_one_line() {
    let (tokens, diagnostics) = scan("+-*/");
    assert_eq!(
        kinds(&tokens),
        vec![
            TokenType::Plus,
            TokenType::Minus,
            TokenType::Star,
            TokenType::Slash,
            TokenType::EOF,
        ]
    );
    assert!(tokens.iter().all(|t| t.line == 1));
    assert!(diagnostics.is_empty());
}

#[test]
fn bang_and_equal_operators_take_maximal_munch() {
    let (tokens, diagnostics) = scan("!= ! == =");
    assert_eq!(
        kinds(&tokens),
        vec![
            TokenType::BangEqual,
            TokenType::Bang,
            TokenType::EqualEqual,
            TokenType::Equal,
            TokenType::EOF,
        ]
    );
    assert!(diagnostics.is_empty());
}

#[test]
fn comparison_operators_take_maximal_munch() {
    let (tokens, diagnostics) = scan("<= < >= >");
    assert_eq!(
        kinds(&tokens),
        vec![
            TokenType::LessEqual,
            TokenType::Less,
            TokenType::GreaterEqual,
            TokenType::Greater,
            TokenType::EOF,
        ]
    );
    assert!(diagnostics.is_empty());
}

#[test]
fn string_literal_spans_a_newline() {
    let (tokens, diagnostics) = scan("\"ab\ncd\"");
    assert_eq!(tokens.len(), 2);
    assert_eq!(
        tokens[0].token_type,
        TokenType::Literal(LiteralType::String("ab\ncd".to_string()))
    );
    assert_eq!(tokens[0].lexeme, "\"ab\ncd\"");
    assert_eq!(tokens[0].line, 1);
    assert_eq!(tokens[1].token_type, TokenType::EOF);
    assert_eq!(tokens[1].line, 2);
    assert!(diagnostics.is_empty());
}

#[test]
fn fractional_number_is_one_token() {
    let (tokens, diagnostics) = scan("12.5");
    assert_eq!(tokens.len(), 2);
    match &tokens[0].token_type {
        TokenType::Literal(LiteralType::Number(text)) => {
            assert_eq!(text, "12.5");
            assert_eq!(text.parse::<f64>().unwrap(), 12.5);
        }
        other => panic!("expected a number token, got {:?}", other),
    }
    assert_eq!(tokens[1].token_type, TokenType::EOF);
    assert!(diagnostics.is_empty());
}

#[test]
fn trailing_decimal_point_is_invalid_number_format() {
    let (tokens, diagnostics) = scan("12.");
    assert_eq!(kinds(&tokens), vec![TokenType::EOF]);
    assert_eq!(
        diagnostics,
        vec![Diagnostic { kind: DiagnosticKind::InvalidNumberFormat, line: 1 }]
    );
}

#[test]
fn comment_produces_no_token() {
    let (tokens, diagnostics) = scan("// comment\nvar");
    assert_eq!(kinds(&tokens), vec![TokenType::Var, TokenType::EOF]);
    assert_eq!(tokens[0].line, 2);
    assert!(diagnostics.is_empty());
}

#[test]
fn comment_at_end_of_input_has_no_newline() {
    let (tokens, diagnostics) = scan("// just a comment");
    assert_eq!(kinds(&tokens), vec![TokenType::EOF]);
    assert_eq!(tokens[0].line, 1);
    assert!(diagnostics.is_empty());
}

#[test]
fn slash_alone_is_division() {
    let (tokens, diagnostics) = scan("8/2");
    assert_eq!(tokens.len(), 4);
    assert_eq!(tokens[1].token_type, TokenType::Slash);
    assert!(diagnostics.is_empty());
}

#[test]
fn identifier_is_not_confused_with_keyword_prefix() {
    let (tokens, diagnostics) = scan("orchid");
    assert_eq!(tokens.len(), 2);
    assert_eq!(
        tokens[0].token_type,
        TokenType::Literal(LiteralType::Identifier("orchid".to_string()))
    );
    assert_eq!(tokens[0].lexeme, "orchid");
    assert_eq!(tokens[1].token_type, TokenType::EOF);
    assert!(diagnostics.is_empty());
}

#[test]
fn all_sixteen_keywords_are_recognized() {
    let source = "and class else false fun for if nil or print return super this true var while";
    let (tokens, diagnostics) = scan(source);
    assert_eq!(
        kinds(&tokens),
        vec![
            TokenType::And,
            TokenType::Class,
            TokenType::Else,
            TokenType::False,
            TokenType::Fun,
            TokenType::For,
            TokenType::If,
            TokenType::Nil,
            TokenType::Or,
            TokenType::Print,
            TokenType::Return,
            TokenType::Super,
            TokenType::This,
            TokenType::True,
            TokenType::Var,
            TokenType::While,
            TokenType::EOF,
        ]
    );
    assert!(diagnostics.is_empty());
}

#[test]
fn every_scan_ends_in_exactly_one_eof() {
    for source in ["", "var x = 1;", "\"unterminated", "@#", "1 + 2.", "// c"] {
        let (tokens, _) = scan(source);
        assert!(!tokens.is_empty());
        assert_eq!(tokens.last().unwrap().token_type, TokenType::EOF);
        let eof_count = tokens
            .iter()
            .filter(|t| t.token_type == TokenType::EOF)
            .count();
        assert_eq!(eof_count, 1);
    }
}

#[test]
fn line_numbers_never_decrease() {
    for source in ["a\nb\nc", "\"x\ny\" z\n1", "(\n)\n{\n}", "p q\n\nr"] {
        let (tokens, _) = scan(source);
        for pair in tokens.windows(2) {
            assert!(pair[0].line <= pair[1].line);
        }
    }
    let (tokens, _) = scan("a\nb\nc");
    let lines: Vec<usize> = tokens.iter().map(|t| t.line).collect();
    assert_eq!(lines, vec![1, 2, 3, 3]);
}

#[test]
fn literal_lexemes_round_trip_with_the_source() {
    let source = "count 12.5 \"hi\"";
    let (tokens, diagnostics) = scan(source);
    assert!(diagnostics.is_empty());
    assert_eq!(tokens[0].lexeme, "count");
    assert_eq!(
        tokens[0].token_type,
        TokenType::Literal(LiteralType::Identifier("count".to_string()))
    );
    assert_eq!(tokens[1].lexeme, "12.5");
    assert_eq!(
        tokens[1].token_type,
        TokenType::Literal(LiteralType::Number("12.5".to_string()))
    );
    assert_eq!(tokens[2].lexeme, "\"hi\"");
    assert_eq!(
        tokens[2].token_type,
        TokenType::Literal(LiteralType::String("hi".to_string()))
    );
    for t in &tokens[..3] {
        assert!(source.contains(&t.lexeme));
    }
}

#[test]
fn scanning_twice_yields_identical_output() {
    let source = "fun add(a, b) { return a + b; } // done\nprint add(1, 2.5) != \"3.5\"";
    let (first_tokens, first_diagnostics) = scan(source);
    let (second_tokens, second_diagnostics) = scan(source);
    assert_eq!(first_tokens, second_tokens);
    assert_eq!(first_diagnostics, second_diagnostics);
}

#[test]
fn unexpected_character_is_reported_and_skipped() {
    let (tokens, diagnostics) = scan("@");
    assert_eq!(kinds(&tokens), vec![TokenType::EOF]);
    assert_eq!(
        diagnostics,
        vec![Diagnostic { kind: DiagnosticKind::UnexpectedCharacter('@'), line: 1 }]
    );
}

#[test]
fn one_bad_character_does_not_abort_the_scan() {
    let (tokens, diagnostics) = scan("a # b");
    assert_eq!(tokens.len(), 3);
    assert_eq!(
        diagnostics,
        vec![Diagnostic { kind: DiagnosticKind::UnexpectedCharacter('#'), line: 1 }]
    );
}

#[test]
fn unterminated_string_is_reported_at_its_start_line() {
    let (tokens, diagnostics) = scan("x\n\"a\nb");
    assert_eq!(tokens.len(), 2);
    assert_eq!(
        diagnostics,
        vec![Diagnostic { kind: DiagnosticKind::UnterminatedString, line: 2 }]
    );
    assert_eq!(tokens.last().unwrap().line, 3);
}

#[test]
fn empty_string_literal_is_allowed() {
    let (tokens, diagnostics) = scan("\"\"");
    assert_eq!(
        tokens[0].token_type,
        TokenType::Literal(LiteralType::String(String::new()))
    );
    assert_eq!(tokens[0].lexeme, "\"\"");
    assert!(diagnostics.is_empty());
}

#[test]
fn number_dot_identifier_recovers_after_the_dot() {
    let (tokens, diagnostics) = scan("12.x");
    assert_eq!(
        kinds(&tokens),
        vec![
            TokenType::Literal(LiteralType::Identifier("x".to_string())),
            TokenType::EOF,
        ]
    );
    assert_eq!(
        diagnostics,
        vec![Diagnostic { kind: DiagnosticKind::InvalidNumberFormat, line: 1 }]
    );
}

#[test]
fn second_dot_after_fraction_is_a_dot_token() {
    let (tokens, diagnostics) = scan("12.5.6");
    assert_eq!(
        kinds(&tokens),
        vec![
            TokenType::Literal(LiteralType::Number("12.5".to_string())),
            TokenType::Dot,
            TokenType::Literal(LiteralType::Number("6".to_string())),
            TokenType::EOF,
        ]
    );
    assert!(diagnostics.is_empty());
}

#[test]
fn whitespace_produces_no_tokens() {
    let (tokens, diagnostics) = scan(" \r\t");
    assert_eq!(kinds(&tokens), vec![TokenType::EOF]);
    assert_eq!(tokens[0].line, 1);
    assert!(diagnostics.is_empty());

    let (tokens, _) = scan("\n\n");
    assert_eq!(tokens[0].line, 3);
}

#[test]
fn carriage_return_does_not_advance_the_line() {
    let (tokens, diagnostics) = scan("a\r\nb");
    assert_eq!(tokens[0].line, 1);
    assert_eq!(tokens[1].line, 2);
    assert!(diagnostics.is_empty());
}

#[test]
fn comment_syntax_inside_a_string_is_literal_text() {
    let (tokens, diagnostics) = scan("\"// not a comment\"");
    assert_eq!(
        tokens[0].token_type,
        TokenType::Literal(LiteralType::String("// not a comment".to_string()))
    );
    assert!(diagnostics.is_empty());
}

#[test]
fn keyword_directly_before_punctuation() {
    let (tokens, diagnostics) = scan("or(");
    assert_eq!(
        kinds(&tokens),
        vec![TokenType::Or, TokenType::LeftParen, TokenType::EOF]
    );
    assert!(diagnostics.is_empty());
}

#[test]
fn multiple_errors_surface_in_one_pass() {
    let (tokens, diagnostics) = scan("@\n7.\n\"open");
    assert_eq!(kinds(&tokens), vec![TokenType::EOF]);
    assert_eq!(
        diagnostics,
        vec![
            Diagnostic { kind: DiagnosticKind::UnexpectedCharacter('@'), line: 1 },
            Diagnostic { kind: DiagnosticKind::InvalidNumberFormat, line: 2 },
            Diagnostic { kind: DiagnosticKind::UnterminatedString, line: 3 },
        ]
    );
}
