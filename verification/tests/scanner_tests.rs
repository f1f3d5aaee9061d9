use ckai::scanner::{scan, Scanner, ScannerError};
use ckai::token::{Token, TokenType};

fn kinds<'a>(source: &'a str) -> Vec<TokenType<'a>> {
    scan(source).0.iter().map(|token| token.token_type).collect()
}

fn lexemes<'a>(source: &'a str) -> Vec<&'a str> {
    scan(source).0.iter().map(|token| token.lexeme).collect()
}

#[test]
fn it_parses_parenthesis() {
    let mut scanner = Scanner::new("()");

    let _ = scanner.scan_tokens();

    let left_paren = Token::new(TokenType::LeftParen, "(", 1);
    let right_paren = Token::new(TokenType::RightParen, ")", 1);
    let eof = Token::new(TokenType::Eof, "", 1);

    assert_eq!(vec![left_paren, right_paren, eof], scanner.tokens)
}

#[test]
fn scan_of_parentheses_gives_three_tokens_and_no_error() {
    let (tokens, errors) = scan("()");
    assert_eq!(
        tokens,
        vec![
            Token::new(TokenType::LeftParen, "(", 1),
            Token::new(TokenType::RightParen, ")", 1),
            Token::new(TokenType::Eof, "", 1),
        ]
    );
    assert_eq!(errors, vec![]);
}

#[test]
fn empty_source_gives_only_eof() {
    let (tokens, errors) = scan("");
    assert_eq!(tokens, vec![Token::new(TokenType::Eof, "", 1)]);
    assert!(errors.is_empty());
}

#[test]
fn every_single_character_token_is_recognised() {
    assert_eq!(
        kinds("(){},.;-+/ *?:"),
        vec![
            TokenType::LeftParen,
            TokenType::RightParen,
            TokenType::LeftBrace,
            TokenType::RightBrace,
            TokenType::Comma,
            TokenType::Dot,
            TokenType::SemiColon,
            TokenType::Minus,
            TokenType::Plus,
            TokenType::Slash,
            TokenType::Star,
            TokenType::Question,
            TokenType::Colon,
            TokenType::Eof,
        ]
    );
}

#[test]
fn an_equals_sign_joins_the_operator_before_it() {
    assert_eq!(
        kinds("! != = == > >= < <="),
        vec![
            TokenType::Not,
            TokenType::NotEqual,
            TokenType::Equal,
            TokenType::EqualEqual,
            TokenType::Greater,
            TokenType::GreaterEqual,
            TokenType::Less,
            TokenType::LessEqual,
            TokenType::Eof,
        ]
    );
    assert_eq!(lexemes("!=<=>===="), vec!["!=", "<=", ">=", "==", "=", ""]);
}

#[test]
fn every_keyword_is_recognised() {
    assert_eq!(
        kinds("and or for if else while class nil return super var print this true false"),
        vec![
            TokenType::And,
            TokenType::Or,
            TokenType::For,
            TokenType::If,
            TokenType::Else,
            TokenType::While,
            TokenType::Class,
            TokenType::Nil,
            TokenType::Return,
            TokenType::Super,
            TokenType::Var,
            TokenType::Print,
            TokenType::This,
            TokenType::True,
            TokenType::False,
            TokenType::Eof,
        ]
    );
}

#[test]
fn words_that_only_resemble_keywords_are_identifiers() {
    assert_eq!(
        scan("android Nil fo").0,
        vec![
            Token::new(TokenType::Identifier, "android", 1),
            Token::new(TokenType::Identifier, "Nil", 1),
            Token::new(TokenType::Identifier, "fo", 1),
            Token::new(TokenType::Eof, "", 1),
        ]
    );
}

#[test]
fn an_underscore_starts_a_word_and_ends_the_one_before_it() {
    assert_eq!(lexemes("_a1 foo_bar _"), vec!["_a1", "foo", "_bar", "_", ""]);
    assert_eq!(
        kinds("foo_bar"),
        vec![TokenType::Identifier, TokenType::Identifier, TokenType::Eof]
    );
}

#[test]
fn numbers_carry_their_text() {
    assert_eq!(
        scan("12 3.25 7. 8.x").0,
        vec![
            Token::new(TokenType::Number("12"), "12", 1),
            Token::new(TokenType::Number("3.25"), "3.25", 1),
            Token::new(TokenType::Number("7."), "7.", 1),
            Token::new(TokenType::Number("8."), "8.", 1),
            Token::new(TokenType::Identifier, "x", 1),
            Token::new(TokenType::Eof, "", 1),
        ]
    );
}

#[test]
fn a_number_has_one_dot_at_most() {
    assert_eq!(lexemes("1.2.3"), vec!["1.2", ".", "3", ""]);
    assert_eq!(lexemes(".5"), vec![".", "5", ""]);
}

#[test]
fn number_text_is_the_decimal_value() {
    let (tokens, _) = scan("3.50");
    match tokens[0].token_type {
        TokenType::Number(text) => assert_eq!(text.parse::<f32>().unwrap(), 3.5f32),
        _ => panic!("not a number"),
    }
}

#[test]
fn a_string_carries_the_text_between_its_quotes() {
    assert_eq!(
        scan("\"hi there\" \"\"").0,
        vec![
            Token::new(TokenType::String("hi there"), "\"hi there\"", 1),
            Token::new(TokenType::String(""), "\"\"", 1),
            Token::new(TokenType::Eof, "", 1),
        ]
    );
}

#[test]
fn a_string_may_span_lines_and_is_tagged_with_its_last_line() {
    assert_eq!(
        scan("\"a\nb\" c").0,
        vec![
            Token::new(TokenType::String("a\nb"), "\"a\nb\"", 2),
            Token::new(TokenType::Identifier, "c", 2),
            Token::new(TokenType::Eof, "", 2),
        ]
    );
}

#[test]
fn text_beyond_ascii_is_sliced_at_character_boundaries() {
    assert_eq!(
        scan("\"né€\" λx").0,
        vec![
            Token::new(TokenType::String("né€"), "\"né€\"", 1),
            Token::new(TokenType::Identifier, "λx", 1),
            Token::new(TokenType::Eof, "", 1),
        ]
    );
}

#[test]
fn blanks_and_line_feeds_give_no_token() {
    assert_eq!(
        scan(" \t\r\n1\n\n2").0,
        vec![
            Token::new(TokenType::Number("1"), "1", 2),
            Token::new(TokenType::Number("2"), "2", 4),
            Token::new(TokenType::Eof, "", 4),
        ]
    );
}

#[test]
fn eof_carries_the_last_line() {
    assert_eq!(scan("1\n\n").0[1], Token::new(TokenType::Eof, "", 3));
}

#[test]
fn a_line_comment_runs_through_the_end_of_its_line() {
    assert_eq!(
        scan("1 // two 2\n3 // no line feed").0,
        vec![
            Token::new(TokenType::Number("1"), "1", 1),
            Token::new(TokenType::Number("3"), "3", 2),
            Token::new(TokenType::Eof, "", 2),
        ]
    );
    assert!(scan("// only").1.is_empty());
}

#[test]
fn a_block_comment_runs_through_the_first_star_and_slash() {
    let (tokens, errors) = scan("1 /* a\n * b **/ 2 /**/ 3 */");
    assert_eq!(
        tokens,
        vec![
            Token::new(TokenType::Number("1"), "1", 1),
            Token::new(TokenType::Number("2"), "2", 2),
            Token::new(TokenType::Number("3"), "3", 2),
            Token::new(TokenType::Star, "*", 2),
            Token::new(TokenType::Slash, "/", 2),
            Token::new(TokenType::Eof, "", 2),
        ]
    );
    assert!(errors.is_empty());
}

#[test]
fn a_slash_alone_is_a_token() {
    assert_eq!(
        kinds("1 / 2"),
        vec![
            TokenType::Number("1"),
            TokenType::Slash,
            TokenType::Number("2"),
            TokenType::Eof
        ]
    );
}

#[test]
fn unterminated_string_is_reported_with_the_last_line() {
    let (tokens, errors) = scan("1 \"abc\nd");
    assert_eq!(errors, vec![ScannerError::UnterminatedString(2)]);
    assert_eq!(
        tokens,
        vec![
            Token::new(TokenType::Number("1"), "1", 1),
            Token::new(TokenType::Eof, "", 2),
        ]
    );
}

#[test]
fn unterminated_block_comment_is_reported_with_the_last_line() {
    let (tokens, errors) = scan("1 /* a\n\n b *");
    assert_eq!(errors, vec![ScannerError::UnterminatedComment(3)]);
    assert_eq!(
        tokens,
        vec![
            Token::new(TokenType::Number("1"), "1", 1),
            Token::new(TokenType::Eof, "", 3),
        ]
    );
    assert_eq!(scan("/*/").1, vec![ScannerError::UnterminatedComment(1)]);
}

#[test]
fn invalid_character_is_reported_with_byte_offset_and_line_and_the_scan_goes_on() {
    let (tokens, errors) = scan("é\n@1 #");
    assert_eq!(
        errors,
        vec![
            ScannerError::InvalidCharacter(3, 2),
            ScannerError::InvalidCharacter(6, 2)
        ]
    );
    assert_eq!(
        tokens,
        vec![
            Token::new(TokenType::Identifier, "é", 1),
            Token::new(TokenType::Number("1"), "1", 2),
            Token::new(TokenType::Eof, "", 2),
        ]
    );
}

#[test]
fn a_character_beyond_ascii_is_a_letter_only_where_unicode_says_so() {
    assert_eq!(kinds("京"), vec![TokenType::Identifier, TokenType::Eof]);
    let (tokens, errors) = scan("€");
    assert_eq!(tokens, vec![Token::new(TokenType::Eof, "", 1)]);
    assert_eq!(errors, vec![ScannerError::InvalidCharacter(0, 1)]);
}

#[test]
fn a_numeric_character_beyond_ascii_continues_a_word_but_starts_none() {
    assert_eq!(lexemes("x²"), vec!["x²", ""]);
    assert_eq!(scan("²").1, vec![ScannerError::InvalidCharacter(0, 1)]);
    assert_eq!(lexemes("x٣ y"), vec!["x٣", "y", ""]);
}

#[test]
fn scan_tokens_returns_the_first_error_and_keeps_all_of_them() {
    let mut scanner = Scanner::new("@ \"x");
    let result = scanner.scan_tokens();
    assert_eq!(result, Err(ScannerError::InvalidCharacter(0, 1)));
    assert_eq!(
        scanner.errors,
        vec![
            ScannerError::InvalidCharacter(0, 1),
            ScannerError::UnterminatedString(1)
        ]
    );
    assert!(scanner.has_error);
    assert_eq!(scanner.tokens, vec![Token::new(TokenType::Eof, "", 1)]);
}

#[test]
fn scan_tokens_returns_ok_for_clean_text() {
    let mut scanner = Scanner::new("a + b");
    assert_eq!(scanner.scan_tokens(), Ok(()));
    assert!(!scanner.has_error);
    assert_eq!(scanner.tokens.len(), 4);
}

#[test]
fn a_new_scanner_stands_at_the_start() {
    let scanner = Scanner::new("ab");
    assert_eq!(scanner.source_code, "ab");
    assert!(scanner.tokens.is_empty());
    assert!(scanner.errors.is_empty());
    assert_eq!((scanner.start, scanner.current, scanner.line), (0, 0, 1));
}

#[test]
fn the_cursor_ends_at_the_end_of_the_text() {
    let mut scanner = Scanner::new("é 1");
    let _ = scanner.scan_tokens();
    assert_eq!(scanner.index, 3);
    assert_eq!(scanner.current, 4);
}

#[test]
fn lexemes_of_clean_text_are_the_text_without_blanks_and_comments() {
    let source = "(1 + 2) // sum\n * /* times */ \"a b\" >= x1";
    let (tokens, errors) = scan(source);
    assert!(errors.is_empty());
    let joined: String = tokens.iter().map(|token| token.lexeme).collect();
    assert_eq!(joined, "(1+2)*\"a b\">=x1");
    assert_eq!(tokens.last().unwrap().token_type, TokenType::Eof);
    assert_eq!(
        tokens
            .iter()
            .filter(|token| token.token_type == TokenType::Eof)
            .count(),
        1
    );
}

#[test]
fn the_lines_of_skipped_comments_are_recorded() {
    let mut scanner = Scanner::new("1 // a\n/* b\n c */ 2 /* d */\n\n// e\n\"// no\" / 3 /* f");
    let _ = scanner.scan_tokens();
    assert_eq!(scanner.comments, vec![1, 2, 3, 5, 6]);
    assert_eq!(scanner.errors, vec![ScannerError::UnterminatedComment(6)]);
}

#[test]
fn text_without_comments_records_none() {
    let mut scanner = Scanner::new("1 / 2 * \"/* s */\"");
    assert!(scanner.comments.is_empty());
    let _ = scanner.scan_tokens();
    assert!(scanner.comments.is_empty());
}
