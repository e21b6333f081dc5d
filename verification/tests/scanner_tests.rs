use rslox::scanner::Scanner;
use rslox::token::{DiagnosticKind, Token, TokenType};

fn scan(src: &str) -> (Vec<Token>, Vec<rslox::token::Diagnostic>) {
    let mut scanner = Scanner::new(src.to_string());
    let tokens = scanner.scan_tokens().clone();
    let diags = scanner.diagnostics().clone();
    (tokens, diags)
}

fn types(src: &str) -> Vec<TokenType> {
    scan(src).0.iter().map(|t| t.token_type).collect()
}

#[test]
fn empty_input_yields_single_eof() {
    let (tokens, diags) = scan("");
    assert_eq!(tokens.len(), 1);
    assert_eq!(tokens[0].token_type, TokenType::Eof);
    assert_eq!(tokens[0].line, 1);
    assert_eq!(tokens[0].lexeme, "");
    assert!(diags.is_empty());
}

#[test]
fn eof_is_last_and_unique() {
    for src in ["", "1 + 2", "\"abc", "@", "// only a comment", "and or +"] {
        let (tokens, _) = scan(src);
        assert!(!tokens.is_empty());
        assert_eq!(tokens.last().unwrap().token_type, TokenType::Eof);
        for t in &tokens[..tokens.len() - 1] {
            assert_ne!(t.token_type, TokenType::Eof);
        }
    }
}

#[test]
fn parens_and_braces() {
    assert_eq!(
        types("(( )){}"),
        vec![
            TokenType::LeftParen,
            TokenType::LeftParen,
            TokenType::RightParen,
            TokenType::RightParen,
            TokenType::LeftBrace,
            TokenType::RightBrace,
            TokenType::Eof,
        ]
    );
}

#[test]
fn number_identifier_keyword() {
    let (tokens, diags) = scan("123.5 abc and");
    assert!(diags.is_empty());
    assert_eq!(tokens.len(), 4);
    assert_eq!(tokens[0].token_type, TokenType::Number);
    assert_eq!(tokens[0].lexeme, "123.5");
    assert_eq!(tokens[0].literal, "123.5");
    assert_eq!(tokens[1].token_type, TokenType::Identifier);
    assert_eq!(tokens[1].lexeme, "abc");
    assert_eq!(tokens[2].token_type, TokenType::And);
    assert_eq!(tokens[2].lexeme, "and");
    assert_eq!(tokens[3].token_type, TokenType::Eof);
}

#[test]
fn maximal_munch_trailing_dot() {
    let (tokens, diags) = scan("1.");
    assert!(diags.is_empty());
    assert_eq!(tokens.len(), 3);
    assert_eq!(tokens[0].token_type, TokenType::Number);
    assert_eq!(tokens[0].lexeme, "1");
    assert_eq!(tokens[1].token_type, TokenType::Dot);
    assert_eq!(tokens[2].token_type, TokenType::Eof);
}

#[test]
fn maximal_munch_dot_then_identifier() {
    let (tokens, _) = scan("1.x");
    assert_eq!(tokens.len(), 4);
    assert_eq!(tokens[0].token_type, TokenType::Number);
    assert_eq!(tokens[0].lexeme, "1");
    assert_eq!(tokens[1].token_type, TokenType::Dot);
    assert_eq!(tokens[2].token_type, TokenType::Identifier);
    assert_eq!(tokens[2].lexeme, "x");
}

#[test]
fn keyword_lookup_is_exact_match_only() {
    let (tokens, _) = scan("andx");
    assert_eq!(tokens[0].token_type, TokenType::Identifier);
    assert_eq!(tokens[0].lexeme, "andx");
    let (tokens, _) = scan("and");
    assert_eq!(tokens[0].token_type, TokenType::And);
    let (tokens, _) = scan("an");
    assert_eq!(tokens[0].token_type, TokenType::Identifier);
}

#[test]
fn all_sixteen_keywords() {
    let cases = [
        ("and", TokenType::And),
        ("class", TokenType::Class),
        ("else", TokenType::Else),
        ("false", TokenType::False),
        ("for", TokenType::For),
        ("fun", TokenType::Fun),
        ("if", TokenType::If),
        ("nil", TokenType::Nil),
        ("or", TokenType::Or),
        ("print", TokenType::Print),
        ("return", TokenType::Return),
        ("super", TokenType::Super),
        ("this", TokenType::This),
        ("true", TokenType::True),
        ("var", TokenType::Var),
        ("while", TokenType::While),
    ];
    for (text, expected) in cases {
        let (tokens, _) = scan(text);
        assert_eq!(tokens[0].token_type, expected, "keyword {}", text);
        assert_eq!(tokens[0].lexeme, text);
    }
}

#[test]
fn comment_is_discarded_and_line_advances() {
    let (tokens, diags) = scan("// c\n+");
    assert!(diags.is_empty());
    assert_eq!(tokens.len(), 2);
    assert_eq!(tokens[0].token_type, TokenType::Plus);
    assert_eq!(tokens[0].line, 2);
    assert_eq!(tokens[1].token_type, TokenType::Eof);
    assert_eq!(tokens[1].line, 2);
}

#[test]
fn comment_at_end_of_input() {
    let (tokens, diags) = scan("// nothing after");
    assert!(diags.is_empty());
    assert_eq!(tokens.len(), 1);
    assert_eq!(tokens[0].token_type, TokenType::Eof);
    assert_eq!(tokens[0].line, 1);
}

#[test]
fn slash_alone_is_division() {
    assert_eq!(types("/"), vec![TokenType::Slash, TokenType::Eof]);
    assert_eq!(
        types("8/2"),
        vec![TokenType::Number, TokenType::Slash, TokenType::Number, TokenType::Eof]
    );
}

#[test]
fn unterminated_string_reports_and_continues() {
    let (tokens, diags) = scan("\"abc");
    assert_eq!(tokens.len(), 1);
    assert_eq!(tokens[0].token_type, TokenType::Eof);
    assert_eq!(diags.len(), 1);
    assert_eq!(diags[0].kind, DiagnosticKind::UnterminatedString);
    assert_eq!(diags[0].line, 1);
}

#[test]
fn unexpected_character_does_not_abort_scan() {
    let (tokens, diags) = scan("@+");
    assert_eq!(diags.len(), 1);
    assert_eq!(diags[0].kind, DiagnosticKind::UnexpectedChar { ch: '@' });
    assert_eq!(diags[0].line, 1);
    assert_eq!(tokens.len(), 2);
    assert_eq!(tokens[0].token_type, TokenType::Plus);
    assert_eq!(tokens[1].token_type, TokenType::Eof);
}

#[test]
fn several_unexpected_characters_each_reported() {
    let (tokens, diags) = scan("@#");
    assert_eq!(diags.len(), 2);
    assert_eq!(diags[0].kind, DiagnosticKind::UnexpectedChar { ch: '@' });
    assert_eq!(diags[1].kind, DiagnosticKind::UnexpectedChar { ch: '#' });
    assert_eq!(tokens.len(), 1);
    assert_eq!(tokens[0].token_type, TokenType::Eof);
}

#[test]
fn operator_disambiguation() {
    assert_eq!(types("!="), vec![TokenType::BangEqual, TokenType::Eof]);
    assert_eq!(types("!"), vec![TokenType::Bang, TokenType::Eof]);
    assert_eq!(types("=="), vec![TokenType::EqualEqual, TokenType::Eof]);
    assert_eq!(types("="), vec![TokenType::Equal, TokenType::Eof]);
    assert_eq!(types("<="), vec![TokenType::LessEqual, TokenType::Eof]);
    assert_eq!(types("<"), vec![TokenType::Less, TokenType::Eof]);
    assert_eq!(types(">="), vec![TokenType::GreaterEqual, TokenType::Eof]);
    assert_eq!(types(">"), vec![TokenType::Greater, TokenType::Eof]);
}

#[test]
fn two_char_operator_lexeme_is_both_characters() {
    let (tokens, _) = scan("!=");
    assert_eq!(tokens[0].lexeme, "!=");
    assert_eq!(tokens[0].literal, "!=");
}

#[test]
fn string_literal_strips_quotes() {
    let (tokens, diags) = scan("\"hi\"");
    assert!(diags.is_empty());
    assert_eq!(tokens.len(), 2);
    assert_eq!(tokens[0].token_type, TokenType::StringLit);
    assert_eq!(tokens[0].lexeme, "\"hi\"");
    assert_eq!(tokens[0].literal, "hi");
    assert_eq!(tokens[0].line, 1);
}

#[test]
fn multi_line_string_advances_line_counter() {
    let (tokens, diags) = scan("\"a\nb\" x");
    assert!(diags.is_empty());
    assert_eq!(tokens.len(), 3);
    assert_eq!(tokens[0].token_type, TokenType::StringLit);
    assert_eq!(tokens[0].literal, "a\nb");
    assert_eq!(tokens[0].line, 1);
    assert_eq!(tokens[1].token_type, TokenType::Identifier);
    assert_eq!(tokens[1].lexeme, "x");
    assert_eq!(tokens[1].line, 2);
    assert_eq!(tokens[2].line, 2);
}

#[test]
fn unterminated_multi_line_string_reports_reached_line() {
    let (tokens, diags) = scan("\"a\n\nbc");
    assert_eq!(tokens.len(), 1);
    assert_eq!(diags.len(), 1);
    assert_eq!(diags[0].kind, DiagnosticKind::UnterminatedString);
    assert_eq!(diags[0].line, 3);
}

#[test]
fn whitespace_is_skipped_silently() {
    let (tokens, diags) = scan(" \r\t");
    assert!(diags.is_empty());
    assert_eq!(tokens.len(), 1);
    assert_eq!(tokens[0].token_type, TokenType::Eof);
}

#[test]
fn newlines_increment_line_counter() {
    let (tokens, _) = scan("\n\n+");
    assert_eq!(tokens[0].token_type, TokenType::Plus);
    assert_eq!(tokens[0].line, 3);
    assert_eq!(tokens[1].line, 3);
}

#[test]
fn lexemes_are_exact_source_slices() {
    let src = "var x = 12.5; // note\nprint \"ok\";";
    let (tokens, diags) = scan(src);
    assert!(diags.is_empty());
    for t in &tokens[..tokens.len() - 1] {
        assert!(src.contains(&t.lexeme), "lexeme {:?} not in source", t.lexeme);
    }
}

#[test]
fn had_error_tracks_diagnostics() {
    let mut scanner = Scanner::new("+".to_string());
    scanner.scan_tokens();
    assert!(!scanner.had_error());
    let mut scanner = Scanner::new("@".to_string());
    scanner.scan_tokens();
    assert!(scanner.had_error());
}

#[test]
fn token_new_keeps_its_fields() {
    let t = Token::new(TokenType::Number, "12".to_string(), "12".to_string(), 7);
    assert_eq!(t.token_type, TokenType::Number);
    assert_eq!(t.lexeme, "12");
    assert_eq!(t.literal, "12");
    assert_eq!(t.line, 7);
}

#[test]
fn mixed_statement_end_to_end() {
    let (tokens, diags) = scan("if (x >= 10) { print \"big\"; }");
    assert!(diags.is_empty());
    let got: Vec<TokenType> = tokens.iter().map(|t| t.token_type).collect();
    assert_eq!(
        got,
        vec![
            TokenType::If,
            TokenType::LeftParen,
            TokenType::Identifier,
            TokenType::GreaterEqual,
            TokenType::Number,
            TokenType::RightParen,
            TokenType::LeftBrace,
            TokenType::Print,
            TokenType::StringLit,
            TokenType::Semicolon,
            TokenType::RightBrace,
            TokenType::Eof,
        ]
    );
}

#[test]
fn number_without_fraction_keeps_integer_text() {
    let (tokens, _) = scan("123");
    assert_eq!(tokens[0].token_type, TokenType::Number);
    assert_eq!(tokens[0].lexeme, "123");
    assert_eq!(tokens[0].literal, "123");
}

#[test]
fn underscore_starts_identifier() {
    let (tokens, _) = scan("_private9");
    assert_eq!(tokens[0].token_type, TokenType::Identifier);
    assert_eq!(tokens[0].lexeme, "_private9");
}
